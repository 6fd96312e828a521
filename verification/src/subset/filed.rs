//! What the file keeps of the pages of the sources, key by key.

use vstd::prelude::*;
use crate::document::PdfDocument;
use crate::object::{dict_get, dict_get_insert, dict_get_some, dict_has, dict_insert, new_ref, obj_dict, Entries, Obj};
use super::denotes::{
    assembled_form, candidates, gathered, in_file, number_of, numbering, page_in_file, pinned_as_gathered,
    renamed_copy, renumbered_env, renumbered_ids,
};
use super::faithful::{same_copy, same_entries};
use super::kept::{
    alone_copied_as_is, entry_kept, fits, gathered_pages_right, geometry_has, page_keys_apart, stands_alone,
};
use super::named::{category_quiet, entries_under, form_number, name_led, operator_led, resource_in, resources_quiet};
use super::paged::{dict_at, gathered_pages};
use super::pages::geometry_keys;
use super::rebuild::{plan, subset, Picks};
use super::refs::{rename, rename_entries};
use super::resources::Category;
use super::sound::{page_row, subset_copies_right};
use super::strays::stray;
use super::unsigned::{
    entries_signed, holds_signature, is_range, same_place, signs, unsigned, unsigned_entries, unsigned_stays,
};
use super::whole::{assembled, file_objects};
use super::{Env, State, SubsetOptions, MAX_DEPTH};

verus! {

/// The copy of what holds no signature holds none.
pub proof fn copy_holds_none(env: Env, ids: Map<(nat, nat), nat>, src: nat, o: Obj, c: Obj, depth: nat)
    requires
        same_copy(env, ids, src, o, c, depth),
        !holds_signature(o),
    ensures
        !holds_signature(c),
    decreases o,
{
    if depth <= MAX_DEPTH {
        match o {
            Obj::Array(items) => {
                assert(decreases_to!(o => o->Array_0));
                assert forall|i: int| 0 <= i < items.len() implies !holds_signature(#[trigger] c->Array_0[i]) by {
                    assert(decreases_to!(items => items[i]));
                    assert(same_copy(env, ids, src, items[i], c->Array_0[i], depth + 1));
                    copy_holds_none(env, ids, src, items[i], c->Array_0[i], depth + 1);
                }
            },
            Obj::Dictionary(d) => {
                assert(decreases_to!(o => o->Dictionary_0));
                entries_hold_none(env, ids, src, d, c->Dictionary_0, depth + 1);
            },
            Obj::Stream(d, _) => {
                assert(decreases_to!(o => o->Stream_0));
                entries_hold_none(env, ids, src, d, c->Stream_0, depth + 1);
            },
            _ => {},
        }
    }
}

proof fn entries_hold_none(env: Env, ids: Map<(nat, nat), nat>, src: nat, d: Entries, e: Entries, depth: nat)
    requires
        same_entries(env, ids, src, d, e, depth),
        !entries_signed(d),
    ensures
        !entries_signed(e),
        !signs(d) ==> !signs(e),
    decreases d,
{
    assert forall|i: int| 0 <= i < e.len() implies !holds_signature((#[trigger] e[i]).1) by {
        assert(decreases_to!(d => d[i]));
        assert(decreases_to!(d[i] => d[i].1));
        assert(!holds_signature(d[i].1));
        copy_holds_none(env, ids, src, d[i].1, e[i].1, depth);
    }
    assert forall|i: int| 0 <= i < d.len() implies (#[trigger] d[i]).0 == e[i].0 by {}
    same_place(d, e, "Type"@);
    same_place(d, e, "ByteRange"@);
    same_place(d, e, "Contents"@);
    if !signs(d) && signs(e) {
        if dict_get(e, "Type"@) == Some(Obj::Name("Sig"@)) {
            let i = choose|i: int|
                0 <= i < d.len() && dict_get(d, "Type"@) == Some((#[trigger] d[i]).1) && dict_get(e, "Type"@) == Some(
                    e[i].1,
                );
            copied_name(env, ids, src, d[i].1, e[i].1, depth);
        } else {
            let i = choose|i: int|
                0 <= i < d.len() && dict_get(d, "ByteRange"@) == Some((#[trigger] d[i]).1) && dict_get(
                    e,
                    "ByteRange"@,
                ) == Some(e[i].1);
            copied_name(env, ids, src, d[i].1, e[i].1, depth);
        }
    }
}

/// The copy of something is a name, or lists positions, only where that is or does.
pub proof fn copied_name(env: Env, ids: Map<(nat, nat), nat>, src: nat, o: Obj, c: Obj, depth: nat)
    requires
        same_copy(env, ids, src, o, c, depth),
    ensures
        c is Name ==> o == c,
        is_range(c) ==> is_range(o),
{
    if depth <= MAX_DEPTH {
        if let Obj::Array(items) = o {
            if is_range(c) {
                assert(same_copy(env, ids, src, items[0], c->Array_0[0], depth + 1));
            }
        }
    }
}

/// What a key leads to when signatures were taken out and references turned.
proof fn turned_get(d: Entries, table: Seq<nat>, key: Seq<char>)
    ensures
        dict_get(rename_entries(unsigned_entries(d), table), key) == (match dict_get(d, key) {
            Some(v) => Some(rename(unsigned(v), table)),
            None => None,
        }),
{
    let e = rename_entries(unsigned_entries(d), table);
    assert forall|i: int| 0 <= i < e.len() implies (#[trigger] e[i]).0 == d[i].0 by {}
    same_place(e, d, key);
    if dict_has(e, key) {
        let i = choose|i: int|
            0 <= i < e.len() && dict_get(e, key) == Some((#[trigger] e[i]).1) && dict_get(d, key) == Some(d[i].1);
        assert(e[i].1 == rename(unsigned_entries(d)[i].1, table));
    }
}

/// A dictionary that was gathered and pinned, and is no signature, stands in the file with its entries,
/// but for signatures in them, and with its references turned.
pub proof fn filed_entry(docs: Seq<PdfDocument>, picks: Picks, opts: SubsetOptions, n: nat, key: Seq<char>)
    requires
        subset(docs, picks, opts) is Ok,
        in_file(docs, picks, opts, n),
        ({
            let st = gathered(docs, picks, opts);
            let d = st.slots[n - 1].object->0->Dictionary_0;
            &&& dict_at(st.slots, n)
            &&& st.slots[n - 1].pinned
            &&& !signs(d)
            &&& n <= picks.len() || !stray(Obj::Dictionary(unsigned_entries(d)))
        }),
        n > picks.len() || key != "Parent"@,
    ensures
        ({
            let st = gathered(docs, picks, opts);
            let q = number_of(docs, picks, opts, n);
            let o = file_objects(docs, picks, opts)[q - 1];
            let table = numbering(docs, picks, opts);
            &&& 1 <= q <= file_objects(docs, picks, opts).len()
            &&& o is Dictionary
            &&& dict_get(o->Dictionary_0, key) == (match dict_get(st.slots[n - 1].object->0->Dictionary_0, key) {
                Some(v) => Some(rename(unsigned(v), table)),
                None => None,
            })
        }),
{
    let st = gathered(docs, picks, opts);
    let d = st.slots[n - 1].object->0->Dictionary_0;
    let table = numbering(docs, picks, opts);
    subset_copies_right(docs, picks, opts);
    if n <= picks.len() {
        assert(page_row(picks.len())[n - 1] == n);
    }
    assert(candidates(docs, picks, opts)[n - 1].object == Some(Obj::Dictionary(unsigned_entries(d))));
    pinned_as_gathered(docs, picks, opts, n);
    turned_get(d, table, key);
    if n <= picks.len() {
        let e = unsigned_entries(d);
        let node = new_ref((assembled(docs, picks, opts).1 - 1) as nat);
        let p = dict_insert(e, "Parent"@, node);
        assert(assembled_form(docs, picks, opts, n) == Obj::Dictionary(p));
        dict_get_insert(e, "Parent"@, node, key);
        let x = rename_entries(p, table);
        let y = rename_entries(e, table);
        assert forall|i: int| 0 <= i < x.len() implies (#[trigger] x[i]).0 == p[i].0 by {}
        assert forall|i: int| 0 <= i < y.len() implies (#[trigger] y[i]).0 == e[i].0 by {}
        same_place(x, p, key);
        same_place(y, e, key);
        if dict_has(x, key) {
            let i = choose|i: int|
                0 <= i < x.len() && dict_get(x, key) == Some((#[trigger] x[i]).1) && dict_get(p, key) == Some(p[i].1);
            assert(x[i].1 == rename(p[i].1, table));
            let j = choose|j: int|
                0 <= j < y.len() && dict_get(y, key) == Some((#[trigger] y[j]).1) && dict_get(e, key) == Some(e[j].1);
            assert(y[j].1 == rename(e[j].1, table));
        }
    }
}

/// Is `c` in the file the copy of `v`: with the numbers of the file where `v` has references, and `v`
/// itself where it has none?
pub open spec fn value_in_file(
    docs: Seq<PdfDocument>,
    picks: Picks,
    opts: SubsetOptions,
    src: nat,
    v: Obj,
    c: Obj,
    depth: nat,
) -> bool {
    let table = numbering(docs, picks, opts);
    &&& same_copy(
        renumbered_env(plan(docs, picks, opts), table),
        renumbered_ids(gathered(docs, picks, opts).ids, table),
        src,
        v,
        c,
        depth,
    )
    &&& stands_alone(v) && fits(v, depth) ==> c == v
}

/// Has the dictionary `d` of the file the key exactly where `from` has it, with the copy of its value?
/// A value that holds a signature is written without it.
pub open spec fn entry_in_file(
    docs: Seq<PdfDocument>,
    picks: Picks,
    opts: SubsetOptions,
    src: nat,
    from: Entries,
    d: Entries,
    key: Seq<char>,
    depth: nat,
) -> bool {
    &&& dict_has(d, key) <==> dict_has(from, key)
    &&& dict_get(from, key) matches Some(v) ==> !holds_signature(v) ==> value_in_file(
        docs,
        picks,
        opts,
        src,
        v,
        dict_get(d, key)->0,
        depth,
    )
}

/// A value that was copied is in the file as its copy.
pub proof fn filed_value(docs: Seq<PdfDocument>, picks: Picks, opts: SubsetOptions, src: nat, v: Obj, c: Obj, depth: nat)
    requires
        same_copy(plan(docs, picks, opts), gathered(docs, picks, opts).ids, src, v, c, depth),
        !holds_signature(v),
    ensures
        value_in_file(docs, picks, opts, src, v, rename(unsigned(c), numbering(docs, picks, opts)), depth),
{
    let env = plan(docs, picks, opts);
    let ids = gathered(docs, picks, opts).ids;
    let table = numbering(docs, picks, opts);
    copy_holds_none(env, ids, src, v, c, depth);
    unsigned_stays(c);
    renamed_copy(env, ids, src, v, c, depth, table);
    if stands_alone(v) && fits(v, depth) {
        alone_copied_as_is(
            renumbered_env(env, table),
            renumbered_ids(ids, table),
            src,
            v,
            rename(c, table),
            depth,
        );
    }
}

/// What was kept when all was gathered is in the file.
pub proof fn filed_kept(
    docs: Seq<PdfDocument>,
    picks: Picks,
    opts: SubsetOptions,
    src: nat,
    from: Entries,
    d: Entries,
    e: Entries,
    key: Seq<char>,
    depth: nat,
)
    requires
        entry_kept(plan(docs, picks, opts), gathered(docs, picks, opts).ids, src, from, d, key, depth),
        dict_get(e, key) == (match dict_get(d, key) {
            Some(v) => Some(rename(unsigned(v), numbering(docs, picks, opts))),
            None => None,
        }),
    ensures
        entry_in_file(docs, picks, opts, src, from, e, key, depth),
{
    if let Some(v) = dict_get(from, key) {
        if !holds_signature(v) {
            filed_value(docs, picks, opts, src, v, dict_get(d, key)->0, depth);
        }
    }
}

/// The dictionary of the page of the file for the choice at position `n - 1`.
pub open spec fn page_of_file(docs: Seq<PdfDocument>, picks: Picks, opts: SubsetOptions, n: nat) -> Entries {
    file_objects(docs, picks, opts)[number_of(docs, picks, opts, n) - 1]->Dictionary_0
}

/// The dictionary of the source page of the choice at position `n - 1`.
pub open spec fn source_page(docs: Seq<PdfDocument>, picks: Picks, n: nat) -> Entries {
    obj_dict(docs[picks[n - 1].0 as int].page_seq()[picks[n - 1].1 as int].object@)->0
}

proof fn page_entry_filed(docs: Seq<PdfDocument>, picks: Picks, opts: SubsetOptions, n: nat, key: Seq<char>)
    requires
        subset(docs, picks, opts) is Ok,
        1 <= n <= picks.len(),
        key != "Parent"@,
    ensures
        ({
            let st = gathered(docs, picks, opts);
            let q = number_of(docs, picks, opts, n);
            let d = st.slots[n - 1].object->0->Dictionary_0;
            &&& dict_at(st.slots, n)
            &&& 1 <= q <= file_objects(docs, picks, opts).len()
            &&& file_objects(docs, picks, opts)[q - 1] is Dictionary
            &&& dict_get(page_of_file(docs, picks, opts, n), key) == (match dict_get(d, key) {
                Some(v) => Some(rename(unsigned(v), numbering(docs, picks, opts))),
                None => None,
            })
        }),
{
    gathered_pages(docs, picks, opts, n);
    page_in_file(docs, picks, opts, n);
    let st = gathered(docs, picks, opts);
    assert(candidates(docs, picks, opts)[n - 1].pinned == st.slots[n - 1].pinned);
    reveal_strlit("Page");
    reveal_strlit("Sig");
    assert("Page"@.len() == 4 && "Sig"@.len() == 3);
    filed_entry(docs, picks, opts, n, key);
}

/// A page of the file lies as its source page does: it has each of the boxes, the rotation, the unit,
/// the group and the content exactly where the source page has it, with the copy of its value, which is
/// the value itself where that refers to nothing.
pub proof fn file_pages_keep_geometry(docs: Seq<PdfDocument>, picks: Picks, opts: SubsetOptions, n: nat)
    requires
        subset(docs, picks, opts) is Ok,
        1 <= n <= picks.len(),
    ensures
        ({
            let src = picks[n - 1].0;
            let q = number_of(docs, picks, opts, n);
            let page = source_page(docs, picks, n);
            let d = page_of_file(docs, picks, opts, n);
            &&& 1 <= q <= file_objects(docs, picks, opts).len()
            &&& file_objects(docs, picks, opts)[q - 1] is Dictionary
            &&& entry_in_file(docs, picks, opts, src, page, d, "MediaBox"@, 1)
            &&& entry_in_file(docs, picks, opts, src, page, d, "CropBox"@, 1)
            &&& entry_in_file(docs, picks, opts, src, page, d, "BleedBox"@, 1)
            &&& entry_in_file(docs, picks, opts, src, page, d, "TrimBox"@, 1)
            &&& entry_in_file(docs, picks, opts, src, page, d, "ArtBox"@, 1)
            &&& entry_in_file(docs, picks, opts, src, page, d, "Rotate"@, 1)
            &&& entry_in_file(docs, picks, opts, src, page, d, "UserUnit"@, 1)
            &&& entry_in_file(docs, picks, opts, src, page, d, "Group"@, 1)
            &&& entry_in_file(docs, picks, opts, src, page, d, "Contents"@, 1)
        }),
{
    gathered_pages_right(docs, picks, opts, n);
    let st = gathered(docs, picks, opts);
    let src = picks[n - 1].0;
    let page = source_page(docs, picks, n);
    let d = st.slots[n - 1].object->0->Dictionary_0;
    let e = page_of_file(docs, picks, opts, n);
    page_keys_apart();
    geometry_has();
    assert forall|key: Seq<char>| #[trigger] geometry_keys().contains(key) || key == "Contents"@ implies key
        != "Parent"@ by {
        if geometry_keys().contains(key) {
            let i = choose|i: int| 0 <= i < geometry_keys().len() && geometry_keys()[i] == key;
            assert(geometry_keys()[i] == key);
        }
    }
    page_entry_filed(docs, picks, opts, n, "MediaBox"@);
    filed_kept(docs, picks, opts, src, page, d, e, "MediaBox"@, 1);
    page_entry_filed(docs, picks, opts, n, "CropBox"@);
    filed_kept(docs, picks, opts, src, page, d, e, "CropBox"@, 1);
    page_entry_filed(docs, picks, opts, n, "BleedBox"@);
    filed_kept(docs, picks, opts, src, page, d, e, "BleedBox"@, 1);
    page_entry_filed(docs, picks, opts, n, "TrimBox"@);
    filed_kept(docs, picks, opts, src, page, d, e, "TrimBox"@, 1);
    page_entry_filed(docs, picks, opts, n, "ArtBox"@);
    filed_kept(docs, picks, opts, src, page, d, e, "ArtBox"@, 1);
    page_entry_filed(docs, picks, opts, n, "Rotate"@);
    filed_kept(docs, picks, opts, src, page, d, e, "Rotate"@, 1);
    page_entry_filed(docs, picks, opts, n, "UserUnit"@);
    filed_kept(docs, picks, opts, src, page, d, e, "UserUnit"@, 1);
    page_entry_filed(docs, picks, opts, n, "Group"@);
    filed_kept(docs, picks, opts, src, page, d, e, "Group"@, 1);
    page_entry_filed(docs, picks, opts, n, "Contents"@);
    filed_kept(docs, picks, opts, src, page, d, e, "Contents"@, 1);
}

/// The state with the numbers of the copies turned by the table.
pub open spec fn turned_state(st: State, table: Seq<nat>) -> State {
    State { ids: renumbered_ids(st.ids, table), forms: renumbered_ids(st.forms, table), ..st }
}

/// Do the resources of a source page hold no signature under the key?
pub open spec fn category_unsigned(doc: PdfDocument, page: Entries, key: Seq<char>) -> bool {
    match entries_under(doc, page, "Resources"@) {
        Some(res) => match entries_under(doc, res, key) {
            Some(sub) => !holds_signature(Obj::Dictionary(sub)),
            None => true,
        },
        None => true,
    }
}

proof fn turned_name(out: Entries, table: Seq<nat>, key: Seq<char>, name: Seq<char>)
    requires
        dict_get(out, key) matches Some(Obj::Dictionary(kept)) && dict_has(kept, name) && !signs(kept),
        !signs(out),
    ensures
        ({
            let r = rename(unsigned(Obj::Dictionary(out)), table);
            let k = dict_get(r->Dictionary_0, key)->0;
            let c = dict_get(dict_get(out, key)->0->Dictionary_0, name)->0;
            &&& r is Dictionary
            &&& dict_get(r->Dictionary_0, key) is Some
            &&& k is Dictionary
            &&& dict_get(k->Dictionary_0, name) == Some(rename(unsigned(c), table))
        }),
{
    turned_get(out, table, key);
    turned_get(dict_get(out, key)->0->Dictionary_0, table, name);
}

proof fn name_turned(
    env: Env,
    st: State,
    src: nat,
    page: Entries,
    d: Entries,
    e: Entries,
    table: Seq<nat>,
    category: Category,
    name: Seq<char>,
)
    requires
        name_led(env, st, src, page, d, category.spec_key(), name),
        resources_quiet(env.docs[src as int], page, d),
        category_unsigned(env.docs[src as int], page, category.spec_key()),
        dict_get(e, "Resources"@) == (match dict_get(d, "Resources"@) {
            Some(v) => Some(rename(unsigned(v), table)),
            None => None,
        }),
    ensures
        name_led(
            renumbered_env(env, table),
            turned_state(st, table),
            src,
            page,
            e,
            category.spec_key(),
            name,
        ),
{
    let doc = env.docs[src as int];
    let key = category.spec_key();
    if let Some(v) = resource_in(doc, page, key, name) {
        let res = entries_under(doc, page, "Resources"@)->0;
        let sub = entries_under(doc, res, key)->0;
        let out = dict_get(d, "Resources"@)->0->Dictionary_0;
        let kept = dict_get(out, key)->0->Dictionary_0;
        let c = dict_get(kept, name)->0;
        assert(category_quiet(doc, page, out, category));
        turned_name(out, table, key, name);
        let i = dict_get_some(sub, name);
        assert(!entries_signed(sub));
        assert(!holds_signature(sub[i].1));
        let form = form_number(doc, v);
        if !(key == "XObject"@ && env.opts.trim_forms && form is Some) {
            copy_holds_none(env, st.ids, src, v, c, 1);
            unsigned_stays(c);
            renamed_copy(env, st.ids, src, v, c, 1, table);
        }
    }
}

proof fn name_filed(
    docs: Seq<PdfDocument>,
    picks: Picks,
    opts: SubsetOptions,
    n: nat,
    category: Category,
    name: Seq<char>,
)
    requires
        subset(docs, picks, opts) is Ok,
        1 <= n <= picks.len(),
        category_unsigned(docs[picks[n - 1].0 as int], source_page(docs, picks, n), category.spec_key()),
        name_led(
            plan(docs, picks, opts),
            gathered(docs, picks, opts),
            picks[n - 1].0,
            source_page(docs, picks, n),
            gathered(docs, picks, opts).slots[n - 1].object->0->Dictionary_0,
            category.spec_key(),
            name,
        ),
    ensures
        name_led(
            renumbered_env(plan(docs, picks, opts), numbering(docs, picks, opts)),
            turned_state(gathered(docs, picks, opts), numbering(docs, picks, opts)),
            picks[n - 1].0,
            source_page(docs, picks, n),
            page_of_file(docs, picks, opts, n),
            category.spec_key(),
            name,
        ),
{
    gathered_pages_right(docs, picks, opts, n);
    page_keys_apart();
    page_entry_filed(docs, picks, opts, n, "Resources"@);
    name_turned(
        plan(docs, picks, opts),
        gathered(docs, picks, opts),
        picks[n - 1].0,
        source_page(docs, picks, n),
        gathered(docs, picks, opts).slots[n - 1].object->0->Dictionary_0,
        page_of_file(docs, picks, opts, n),
        numbering(docs, picks, opts),
        category,
        name,
    );
}

/// A page of the file has what its content names: each font, XObject, graphics state, colour space,
/// pattern, shading and property list that an operator of its content names, and each default colour
/// space that an operator may paint with, where the resources of the source page have it, leading to
/// its copy.
pub proof fn file_pages_have_what_they_name(
    docs: Seq<PdfDocument>,
    picks: Picks,
    opts: SubsetOptions,
    n: nat,
    i: int,
)
    requires
        subset(docs, picks, opts) is Ok,
        1 <= n <= picks.len(),
        ({
            let doc = docs[picks[n - 1].0 as int];
            let page = source_page(docs, picks, n);
            let content = doc.page_seq()[picks[n - 1].1 as int].content;
            &&& content is Operators
            &&& 0 <= i < content.operators().len()
            &&& category_unsigned(doc, page, "Font"@)
            &&& category_unsigned(doc, page, "XObject"@)
            &&& category_unsigned(doc, page, "ExtGState"@)
            &&& category_unsigned(doc, page, "ColorSpace"@)
            &&& category_unsigned(doc, page, "Pattern"@)
            &&& category_unsigned(doc, page, "Shading"@)
            &&& category_unsigned(doc, page, "Properties"@)
        }),
    ensures
        operator_led(
            renumbered_env(plan(docs, picks, opts), numbering(docs, picks, opts)),
            turned_state(gathered(docs, picks, opts), numbering(docs, picks, opts)),
            picks[n - 1].0,
            source_page(docs, picks, n),
            page_of_file(docs, picks, opts, n),
            docs[picks[n - 1].0 as int].page_seq()[picks[n - 1].1 as int].content.operators()[i],
        ),
{
    let st = gathered(docs, picks, opts);
    let env = plan(docs, picks, opts);
    let table = numbering(docs, picks, opts);
    let src = picks[n - 1].0;
    let page = source_page(docs, picks, n);
    let op = docs[src as int].page_seq()[picks[n - 1].1 as int].content.operators()[i];
    let d = st.slots[n - 1].object->0->Dictionary_0;
    let e = page_of_file(docs, picks, opts, n);
    let file_env = renumbered_env(env, table);
    let file_state = turned_state(gathered(docs, picks, opts), numbering(docs, picks, opts));
    gathered_pages_right(docs, picks, opts, n);
    assert(operator_led(env, st, src, page, d, op));
    assert forall|name: Seq<char>| #[trigger] name_led(env, st, src, page, d, "Font"@, name) implies name_led(
        file_env, file_state, src, page, e, "Font"@, name) by {
        name_filed(docs, picks, opts, n, Category::Font, name);
    }
    assert forall|name: Seq<char>| #[trigger] name_led(env, st, src, page, d, "XObject"@, name) implies name_led(
        file_env, file_state, src, page, e, "XObject"@, name) by {
        name_filed(docs, picks, opts, n, Category::XObject, name);
    }
    assert forall|name: Seq<char>| #[trigger] name_led(env, st, src, page, d, "ExtGState"@, name) implies name_led(
        file_env, file_state, src, page, e, "ExtGState"@, name) by {
        name_filed(docs, picks, opts, n, Category::ExtGState, name);
    }
    assert forall|name: Seq<char>| #[trigger] name_led(env, st, src, page, d, "ColorSpace"@, name) implies name_led(
        file_env, file_state, src, page, e, "ColorSpace"@, name) by {
        name_filed(docs, picks, opts, n, Category::ColorSpace, name);
    }
    assert forall|name: Seq<char>| #[trigger] name_led(env, st, src, page, d, "Pattern"@, name) implies name_led(
        file_env, file_state, src, page, e, "Pattern"@, name) by {
        name_filed(docs, picks, opts, n, Category::Pattern, name);
    }
    assert forall|name: Seq<char>| #[trigger] name_led(env, st, src, page, d, "Shading"@, name) implies name_led(
        file_env, file_state, src, page, e, "Shading"@, name) by {
        name_filed(docs, picks, opts, n, Category::Shading, name);
    }
    assert forall|name: Seq<char>| #[trigger] name_led(env, st, src, page, d, "Properties"@, name) implies name_led(
        file_env, file_state, src, page, e, "Properties"@, name) by {
        name_filed(docs, picks, opts, n, Category::Properties, name);
    }
}

} // verus!
