//! What a form field of the output keeps of that of the source, key by key.

use vstd::prelude::*;
use crate::document::PdfDocument;
use crate::object::{
    dict_get, dict_get_insert, dict_has, dict_insert, dict_ref, new_ref, obj_dict, Entries, Obj,
};
use super::acroform::{dict_of, field_keys, import_form_field, register_widget};
use super::again::gather_remembers;
use super::copy::{carry, edit, levels, remap_entries};
use super::denotes::{gathered, in_file, number_of};
use super::dests::sub_array;
use super::faithful::{entries_copied, extends, ids_placed};
use super::filed::{entry_in_file, filed_entry, filed_kept};
use super::finish::gather;
use super::kept::{carried, entry_kept, entry_stays};
use super::paged::{dict_at, entry_at, gather_keeps, link_key};
use super::pages::{
    annot_of, build_page, count_severed, is_signature, keep_plain, navigation, navigation_keys, page_body,
    place_annot, process_annot, process_annots, remove_all, signature_keys, signature_warning,
};
use super::rebuild::{build_pages, plan, planned, subset, Picks};
use super::relinked::body_adds;
use super::sound::{body_advances, gather_advances, page_row, pages_right};
use super::unsigned::{same_place, unsigned_entries};
use super::whole::{file_objects, gathering_keeps_pins};
use super::{has_slot, next_id, set_pin, with_slot, Env, SignaturePolicy, State, SubsetOptions, MAX_DEPTH};

verus! {

/// The field that lies the given number of steps above the field `id`.
pub open spec fn field_above(doc: PdfDocument, id: nat, steps: nat) -> Option<nat>
    decreases steps,
{
    if steps == 0 {
        Some(id)
    } else {
        match field_above(doc, id, (steps - 1) as nat) {
            Some(f) => dict_ref(dict_of(doc, f), "Parent"@),
            None => None,
        }
    }
}

/// Does the field `d` keep what the source field `from` says of its kind, its name, its value and its
/// look?
pub open spec fn field_kept(
    env: Env,
    ids: Map<(nat, nat), nat>,
    src: nat,
    from: Entries,
    d: Entries,
    depth: nat,
) -> bool {
    &&& entry_kept(env, ids, src, from, d, "FT"@, depth)
    &&& entry_kept(env, ids, src, from, d, "T"@, depth)
    &&& entry_kept(env, ids, src, from, d, "TU"@, depth)
    &&& entry_kept(env, ids, src, from, d, "TM"@, depth)
    &&& entry_kept(env, ids, src, from, d, "Ff"@, depth)
    &&& entry_kept(env, ids, src, from, d, "V"@, depth)
    &&& entry_kept(env, ids, src, from, d, "DV"@, depth)
    &&& entry_kept(env, ids, src, from, d, "DA"@, depth)
    &&& entry_kept(env, ids, src, from, d, "Q"@, depth)
    &&& entry_kept(env, ids, src, from, d, "Opt"@, depth)
    &&& entry_kept(env, ids, src, from, d, "MaxLen"@, depth)
}

/// Is the copy of the field `k` right, which lies the given number of steps above the field `w`?
pub open spec fn field_stands(env: Env, st: State, k: (nat, nat), w: nat, steps: nat) -> bool {
    let doc = env.docs[k.0 as int];
    let n = st.fields[k];
    let d = st.slots[n - 1].object->0->Dictionary_0;
    &&& steps <= 256
    &&& field_above(doc, w, steps) == Some(k.1)
    &&& dict_at(st.slots, n)
    &&& st.slots[n - 1].pinned
    &&& field_kept(env, st.ids, k.0, dict_of(doc, k.1), d, steps + 1)
    &&& dict_get(d, "Type"@) is None
    &&& dict_get(d, "ByteRange"@) is None
}

/// Is the copy of the field `k` right?
pub open spec fn field_right(env: Env, st: State, k: (nat, nat)) -> bool {
    exists|w: nat, steps: nat| #[trigger] field_stands(env, st, k, w, steps)
}

proof fn field_keys_apart()
    ensures
        forall|i: int|
            0 <= i < field_keys().len() ==> {
                let key = #[trigger] field_keys()[i];
                key != "Type"@ && key != "ByteRange"@ && !link_key(key)
            },
        "Type"@ != "Parent"@ && "ByteRange"@ != "Parent"@,
        !link_key("Type"@) && !link_key("ByteRange"@),
{
    reveal_strlit("FT");
    reveal_strlit("T");
    reveal_strlit("TU");
    reveal_strlit("TM");
    reveal_strlit("Ff");
    reveal_strlit("V");
    reveal_strlit("DV");
    reveal_strlit("DA");
    reveal_strlit("Q");
    reveal_strlit("Opt");
    reveal_strlit("MaxLen");
    reveal_strlit("Type");
    reveal_strlit("ByteRange");
    reveal_strlit("Prev");
    reveal_strlit("Next");
    reveal_strlit("StructParents");
    reveal_strlit("Kids");
    reveal_strlit("Parent");
    assert("FT"@.len() == 2 && "T"@.len() == 1 && "TU"@.len() == 2 && "TM"@.len() == 2 && "Ff"@.len() == 2);
    assert("V"@.len() == 1 && "DV"@.len() == 2 && "DA"@.len() == 2 && "Q"@.len() == 1 && "Opt"@.len() == 3);
    assert("MaxLen"@.len() == 6 && "MaxLen"@[0] == 'M');
    assert("Type"@.len() == 4 && "Type"@[0] == 'T' && "ByteRange"@.len() == 9);
    assert("Prev"@.len() == 4 && "Next"@.len() == 4 && "StructParents"@.len() == 13 && "Kids"@.len() == 4);
    assert("Prev"@[0] == 'P' && "Next"@[0] == 'N' && "Kids"@[0] == 'K');
    assert("Parent"@.len() == 6 && "Parent"@[0] == 'P');
}

proof fn field_keys_are()
    ensures
        field_keys().contains("FT"@),
        field_keys().contains("T"@),
        field_keys().contains("TU"@),
        field_keys().contains("TM"@),
        field_keys().contains("Ff"@),
        field_keys().contains("V"@),
        field_keys().contains("DV"@),
        field_keys().contains("DA"@),
        field_keys().contains("Q"@),
        field_keys().contains("Opt"@),
        field_keys().contains("MaxLen"@),
{
    let k = field_keys();
    assert(k[0] == "FT"@ && k[1] == "T"@ && k[2] == "TU"@ && k[3] == "TM"@ && k[4] == "Ff"@ && k[5] == "V"@);
    assert(k[6] == "DV"@ && k[7] == "DA"@ && k[8] == "Q"@ && k[9] == "Opt"@ && k[10] == "MaxLen"@);
}

/// Is the key one that a field keeps, or one that a field has not?
spec fn field_key(key: Seq<char>) -> bool {
    field_keys().contains(key) || key == "Type"@ || key == "ByteRange"@
}

proof fn field_key_apart(key: Seq<char>)
    requires
        field_key(key),
    ensures
        !link_key(key),
        key != "Parent"@,
{
    field_keys_apart();
    if field_keys().contains(key) {
        let i = choose|i: int| 0 <= i < field_keys().len() && field_keys()[i] == key;
        assert(field_keys()[i] == key);
    }
}

proof fn field_kept_moves(
    env: Env,
    a: Map<(nat, nat), nat>,
    b: Map<(nat, nat), nat>,
    src: nat,
    from: Entries,
    d: Entries,
    e: Entries,
    depth: nat,
)
    requires
        field_kept(env, a, src, from, d, depth),
        extends(a, b),
        forall|key: Seq<char>| field_key(key) ==> #[trigger] dict_get(e, key) == dict_get(d, key),
    ensures
        field_kept(env, b, src, from, e, depth),
{
    field_keys_are();
    entry_stays(env, a, b, src, from, d, e, "FT"@, depth);
    entry_stays(env, a, b, src, from, d, e, "T"@, depth);
    entry_stays(env, a, b, src, from, d, e, "TU"@, depth);
    entry_stays(env, a, b, src, from, d, e, "TM"@, depth);
    entry_stays(env, a, b, src, from, d, e, "Ff"@, depth);
    entry_stays(env, a, b, src, from, d, e, "V"@, depth);
    entry_stays(env, a, b, src, from, d, e, "DV"@, depth);
    entry_stays(env, a, b, src, from, d, e, "DA"@, depth);
    entry_stays(env, a, b, src, from, d, e, "Q"@, depth);
    entry_stays(env, a, b, src, from, d, e, "Opt"@, depth);
    entry_stays(env, a, b, src, from, d, e, "MaxLen"@, depth);
}

/// Was `b` reached from `a` so that what stands behind the first `p` places is unchanged, and the copies
/// of fields that were added are right and stand behind all that was there?
pub open spec fn fields_right(env: Env, p: nat, a: State, b: State) -> bool {
    &&& p <= a.slots.len() <= b.slots.len()
    &&& ids_placed(b)
    &&& extends(a.ids, b.ids)
    &&& extends(a.fields, b.fields)
    &&& forall|i: int| p <= i < a.slots.len() ==> (#[trigger] b.slots[i]) == a.slots[i]
    &&& forall|k: (nat, nat)| #[trigger]
        b.fields.contains_key(k) && !a.fields.contains_key(k) ==> b.fields[k] > a.slots.len() && field_right(env, b, k)
}

proof fn right_moves(env: Env, a: State, b: State, k: (nat, nat))
    requires
        field_right(env, a, k),
        extends(a.ids, b.ids),
        b.fields[k] == a.fields[k],
        a.fields[k] <= b.slots.len(),
        b.slots[a.fields[k] - 1] == a.slots[a.fields[k] - 1],
    ensures
        field_right(env, b, k),
{
    let (w, steps) = choose|w: nat, steps: nat| #[trigger] field_stands(env, a, k, w, steps);
    let d = a.slots[a.fields[k] - 1].object->0->Dictionary_0;
    field_kept_moves(env, a.ids, b.ids, k.0, dict_of(env.docs[k.0 as int], k.1), d, d, steps + 1);
    assert(field_stands(env, b, k, w, steps));
}

proof fn fields_trans(env: Env, p: nat, a: State, b: State, c: State)
    requires
        fields_right(env, p, a, b),
        fields_right(env, p, b, c),
    ensures
        fields_right(env, p, a, c),
{
    assert forall|i: int| p <= i < a.slots.len() implies (#[trigger] c.slots[i]) == a.slots[i] by {
        assert(b.slots[i] == a.slots[i]);
    }
    assert forall|k: (nat, nat)| #[trigger] c.fields.contains_key(k) && !a.fields.contains_key(k) implies c.fields[k]
        > a.slots.len() && field_right(env, c, k) by {
        if b.fields.contains_key(k) {
            assert(b.fields[k] > a.slots.len() && field_right(env, b, k));
            let (w, steps) = choose|w: nat, steps: nat| #[trigger] field_stands(env, b, k, w, steps);
            assert(dict_at(b.slots, b.fields[k]));
            assert(c.slots[b.fields[k] - 1] == b.slots[b.fields[k] - 1]);
            right_moves(env, b, c, k);
        }
    }
}

/// Copying and nothing else leaves the fields right.
proof fn copied_fields(env: Env, p: nat, a: State, b: State)
    requires
        p <= a.slots.len() <= b.slots.len(),
        ids_placed(b),
        extends(a.ids, b.ids),
        b.fields == a.fields,
        forall|i: int| p <= i < a.slots.len() ==> (#[trigger] b.slots[i]) == a.slots[i],
    ensures
        fields_right(env, p, a, b),
{
}

/// A change to an object that was added after `a`, and that is no copy of a field, leaves the fields
/// right.
proof fn changed_fields(env: Env, p: nat, a: State, b: State, c: State, n: nat)
    requires
        fields_right(env, p, a, b),
        n > a.slots.len(),
        c.slots.len() == b.slots.len(),
        c.ids == b.ids,
        c.fields == b.fields,
        forall|i: int| 0 <= i < b.slots.len() && i != n - 1 ==> (#[trigger] c.slots[i]) == b.slots[i],
        forall|k: (nat, nat)| #[trigger] b.fields.contains_key(k) && !a.fields.contains_key(k) ==> b.fields[k] != n,
    ensures
        fields_right(env, p, a, c),
{
    assert forall|k: (nat, nat)| #[trigger] c.fields.contains_key(k) && !a.fields.contains_key(k) implies c.fields[k]
        > a.slots.len() && field_right(env, c, k) by {
        assert(b.fields.contains_key(k));
        let (w, steps) = choose|w: nat, steps: nat| #[trigger] field_stands(env, b, k, w, steps);
        assert(dict_at(b.slots, b.fields[k]));
        assert(c.slots[b.fields[k] - 1] == b.slots[b.fields[k] - 1]);
        right_moves(env, b, c, k);
    }
}

proof fn carried_field(env: Env, st: State, src: nat, from: Entries, depth: nat)
    requires
        ids_placed(st),
    ensures
        ({
            let (s, d) = carry(env, st, src, from, field_keys(), depth, Seq::empty());
            &&& field_kept(env, s.ids, src, from, d, depth)
            &&& dict_get(d, "Type"@) is None
            &&& dict_get(d, "ByteRange"@) is None
        }),
{
    let none: Entries = Seq::empty();
    field_keys_are();
    assert forall|key: Seq<char>| !#[trigger] dict_has(none, key) by {}
    carried(env, st, src, from, field_keys(), depth, none, "FT"@);
    carried(env, st, src, from, field_keys(), depth, none, "T"@);
    carried(env, st, src, from, field_keys(), depth, none, "TU"@);
    carried(env, st, src, from, field_keys(), depth, none, "TM"@);
    carried(env, st, src, from, field_keys(), depth, none, "Ff"@);
    carried(env, st, src, from, field_keys(), depth, none, "V"@);
    carried(env, st, src, from, field_keys(), depth, none, "DV"@);
    carried(env, st, src, from, field_keys(), depth, none, "DA"@);
    carried(env, st, src, from, field_keys(), depth, none, "Q"@);
    carried(env, st, src, from, field_keys(), depth, none, "Opt"@);
    carried(env, st, src, from, field_keys(), depth, none, "MaxLen"@);
    field_keys_apart();
    assert(!field_keys().contains("Type"@)) by {
        if field_keys().contains("Type"@) {
            let i = choose|i: int| 0 <= i < field_keys().len() && field_keys()[i] == "Type"@;
            assert(field_keys()[i] == "Type"@);
        }
    }
    assert(!field_keys().contains("ByteRange"@)) by {
        if field_keys().contains("ByteRange"@) {
            let i = choose|i: int| 0 <= i < field_keys().len() && field_keys()[i] == "ByteRange"@;
            assert(field_keys()[i] == "ByteRange"@);
        }
    }
    carried(env, st, src, from, field_keys(), depth, none, "Type"@);
    carried(env, st, src, from, field_keys(), depth, none, "ByteRange"@);
    assert(!dict_has(none, "Type"@) && !dict_has(none, "ByteRange"@));
}

/// The copy of a field, and those of the fields above it, keep what the source fields have.
pub proof fn field_is_copied(env: Env, p: nat, st: State, src: nat, id: nat, depth: nat, w: nat)
    requires
        ids_placed(st),
        p <= st.slots.len(),
        depth <= 256,
        field_above(env.docs[src as int], w, depth) == Some(id),
    ensures
        ({
            let (s, n) = import_form_field(env, st, src, id, depth);
            &&& fields_right(env, p, st, s)
            &&& s.fields.contains_key((src, id)) && s.fields[(src, id)] == n
        }),
    decreases levels(depth),
{
    if !st.fields.contains_key((src, id)) {
        let k = (src, id);
        let n = next_id(st);
        let s1 = State { fields: st.fields.insert(k, n), ..set_pin(with_slot(st), n, true) };
        let fd = dict_of(env.docs[src as int], id);
        assert(ids_placed(s1));
        carried(env, s1, src, fd, field_keys(), depth + 1, Seq::empty(), "FT"@);
        carried_field(env, s1, src, fd, depth + 1);
        let (s2, nd) = carry(env, s1, src, fd, field_keys(), depth + 1, Seq::empty());
        assert(s2.slots[n - 1] == s1.slots[n - 1]);
        assert(s2.slots[n - 1].pinned);
        let s = import_form_field(env, st, src, id, depth).0;
        let up = dict_ref(fd, "Parent"@);
        if up is Some && depth < MAX_DEPTH {
            let p0 = up->0;
            assert(field_above(env.docs[src as int], w, depth + 1) == Some(p0));
            field_is_copied(env, p, s2, src, p0, depth + 1, w);
            let (s3, pf) = import_form_field(env, s2, src, p0, depth + 1);
            let e = dict_insert(nd, "Parent"@, new_ref(pf));
            assert(s3.slots[n - 1] == s2.slots[n - 1]);
            assert forall|key: Seq<char>| field_key(key) implies #[trigger] dict_get(e, key) == dict_get(nd, key) by {
                field_key_apart(key);
                dict_get_insert(nd, "Parent"@, new_ref(pf), key);
            }
            field_kept_moves(env, s2.ids, s.ids, src, fd, nd, e, depth + 1);
            assert(s.slots[n - 1].object == Some(Obj::Dictionary(e)));
            assert(s.fields[k] == n) by {
                assert(s2.fields.contains_key(k));
            }
            assert(field_key("Type"@) && field_key("ByteRange"@));
            assert(field_stands(env, s, k, w, depth));
            assert(field_right(env, s, k));
            assert forall|j: (nat, nat)| #[trigger] s.fields.contains_key(j) && !st.fields.contains_key(
                j,
            ) implies s.fields[j] > st.slots.len() && field_right(env, s, j) by {
                if j != k {
                    assert(!s2.fields.contains_key(j));
                    assert(s3.fields.contains_key(j));
                    assert(s3.fields[j] > s2.slots.len());
                    let (x, y) = choose|x: nat, y: nat| #[trigger] field_stands(env, s3, j, x, y);
                    assert(dict_at(s3.slots, s3.fields[j]));
                    right_moves(env, s3, s, j);
                }
            }
            assert forall|i: int| p <= i < st.slots.len() implies (#[trigger] s.slots[i]) == st.slots[i] by {
                assert(s3.slots[i] == s2.slots[i]);
                assert(s2.slots[i] == s1.slots[i]);
            }
            assert(extends(st.ids, s.ids));
            assert(extends(st.fields, s.fields)) by {
                assert(extends(st.fields, s2.fields));
            }
            assert(ids_placed(s)) by {
                assert forall|j: (nat, nat)| #[trigger] s.ids.contains_key(j) implies has_slot(s, s.ids[j]) by {
                    assert(has_slot(s3, s3.ids[j]));
                }
            }
        } else {
            assert(s.slots[n - 1].object == Some(Obj::Dictionary(nd)));
            assert(field_stands(env, s, k, w, depth));
            assert(field_right(env, s, k));
            assert forall|i: int| p <= i < st.slots.len() implies (#[trigger] s.slots[i]) == st.slots[i] by {
                assert(s2.slots[i] == s1.slots[i]);
            }
            assert(extends(st.ids, s.ids));
            assert(extends(st.fields, s.fields));
            assert(ids_placed(s)) by {
                assert forall|j: (nat, nat)| #[trigger] s.ids.contains_key(j) implies has_slot(s, s.ids[j]) by {
                    assert(has_slot(s2, s2.ids[j]));
                }
            }
        }
        assert(fields_right(env, p, st, s));
    } else {
        copied_fields(env, p, st, st);
    }
}

proof fn placed_fields(
    env: Env,
    p: nat,
    st: State,
    src: nat,
    annot: Entries,
    nav: Option<(Seq<char>, Obj)>,
    page_id: nat,
)
    requires
        ids_placed(st),
        p <= st.slots.len(),
    ensures
        ({
            let (s, n) = place_annot(env, st, src, annot, nav, page_id);
            &&& fields_right(env, p, st, s)
            &&& s.fields == st.fields
            &&& st.slots.len() < n == s.slots.len()
        }),
{
    entries_copied(env, st, src, annot, 1);
    let (s1, d) = remap_entries(env, st, src, annot, 1);
    let (s, n) = place_annot(env, st, src, annot, nav, page_id);
    assert forall|j: (nat, nat)| #[trigger] s.ids.contains_key(j) implies has_slot(s, s.ids[j]) by {
        assert(has_slot(s1, s1.ids[j]));
    }
    assert forall|i: int| p <= i < st.slots.len() implies (#[trigger] s.slots[i]) == st.slots[i] by {
        assert(s1.slots[i] == st.slots[i]);
    }
}

proof fn plain_fields(
    env: Env,
    p: nat,
    st: State,
    src: nat,
    annot: Entries,
    parent: Option<nat>,
    nav: Option<(Seq<char>, Obj)>,
    page_id: nat,
)
    requires
        ids_placed(st),
        p <= st.slots.len(),
    ensures
        fields_right(env, p, st, keep_plain(env, st, src, annot, parent, nav, page_id).0),
{
    placed_fields(env, p, st, src, annot, nav, page_id);
    let (s1, aid) = place_annot(env, st, src, annot, nav, page_id);
    if env.opts.keep_acroform && (dict_has(annot, "FT"@) || parent is Some) {
        let t = set_pin(s1, aid, true);
        changed_fields(env, p, st, s1, t, aid);
        match parent {
            Some(f) => {
                assert(field_above(env.docs[src as int], f, 0) == Some(f));
                field_is_copied(env, p, t, src, f, 0, f);
                let (u, n) = import_form_field(env, t, src, f, 0);
                fields_trans(env, p, st, t, u);
                let v = State { links: u.links.push((n, aid)), ..u };
                copied_fields(env, p, u, v);
                fields_trans(env, p, st, u, v);
                let s = edit(v, aid, "Parent"@, new_ref(n));
                changed_fields(env, p, st, v, s, aid);
            },
            None => {
                let u = register_widget(env, t, src, annot, aid, parent).0;
                assert(u.slots == t.slots && u.fields == t.fields && u.ids == t.ids);
                copied_fields(env, p, t, u);
                fields_trans(env, p, st, t, u);
            },
        }
    }
}

proof fn annot_fields(env: Env, p: nat, st: State, src: nat, entry: Obj, page_id: nat, page_index: nat)
    requires
        ids_placed(st),
        p <= st.slots.len(),
        process_annot(env, st, src, entry, page_id, page_index) is Ok,
    ensures
        fields_right(env, p, st, process_annot(env, st, src, entry, page_id, page_index)->Ok_0.0),
{
    copied_fields(env, p, st, st);
    if let Some(annot) = annot_of(env.docs[src as int], entry) {
        let nav = navigation(env, src, annot);
        let bare = remove_all(annot, navigation_keys());
        let s1 = count_severed(st, annot, nav);
        copied_fields(env, p, st, s1);
        let parent = dict_ref(annot, "Parent"@);
        if !is_signature(env.docs[src as int], bare, parent) {
            plain_fields(env, p, s1, src, bare, parent, nav, page_id);
            fields_trans(env, p, st, s1, keep_plain(env, s1, src, bare, parent, nav, page_id).0);
        } else if env.opts.on_signature == SignaturePolicy::PreserveVisual {
            let s2 = State {
                dropped_signatures: s1.dropped_signatures + 1,
                warnings: s1.warnings.push(signature_warning(page_index)),
                ..s1
            };
            copied_fields(env, p, st, s2);
            let plain = remove_all(bare, signature_keys());
            placed_fields(env, p, s2, src, plain, nav, page_id);
            fields_trans(env, p, st, s2, place_annot(env, s2, src, plain, nav, page_id).0);
        }
    }
}

proof fn annots_fields(
    env: Env,
    p: nat,
    st: State,
    src: nat,
    entries: Seq<Obj>,
    page_id: nat,
    page_index: nat,
    kept: Seq<Obj>,
)
    requires
        ids_placed(st),
        p <= st.slots.len(),
        process_annots(env, st, src, entries, page_id, page_index, kept) is Ok,
    ensures
        fields_right(env, p, st, process_annots(env, st, src, entries, page_id, page_index, kept)->Ok_0.0),
    decreases entries.len(),
{
    if entries.len() == 0 {
        copied_fields(env, p, st, st);
    } else {
        annot_fields(env, p, st, src, entries[0], page_id, page_index);
        let (s1, o) = process_annot(env, st, src, entries[0], page_id, page_index)->Ok_0;
        let more = match o {
            Some(r) => kept.push(r),
            None => kept,
        };
        annots_fields(env, p, s1, src, entries.skip(1), page_id, page_index, more);
        let s2 = process_annots(env, s1, src, entries.skip(1), page_id, page_index, more)->Ok_0.0;
        fields_trans(env, p, st, s1, s2);
    }
}

proof fn page_fields(env: Env, p: nat, st: State, src: nat, page_index: nat, page_id: nat)
    requires
        ids_placed(st),
        1 <= page_id <= p <= st.slots.len(),
        build_page(env, st, src, page_index, page_id) is Ok,
    ensures
        fields_right(env, p, st, build_page(env, st, src, page_index, page_id)->Ok_0),
{
    let doc = env.docs[src as int];
    let page = doc.page_seq()[page_index as int];
    let d = obj_dict(page.object@)->0;
    body_adds(env, st, src, d, page.content);
    body_advances(env, st, src, d, page.content);
    let (s1, d1) = page_body(env, st, src, d, page.content);
    copied_fields(env, p, st, s1);
    let annots = match sub_array(doc, d, "Annots"@) {
        Some(entries) => process_annots(env, s1, src, entries, page_id, page_index, Seq::empty()),
        None => Ok((s1, Seq::empty())),
    };
    if let Some(entries) = sub_array(doc, d, "Annots"@) {
        annots_fields(env, p, s1, src, entries, page_id, page_index, Seq::empty());
        fields_trans(env, p, st, s1, annots->Ok_0.0);
    }
    let (s2, kept) = annots->Ok_0;
    let s = build_page(env, st, src, page_index, page_id)->Ok_0;
    assert(s.slots.len() == s2.slots.len());
    assert forall|i: int| p <= i < s2.slots.len() implies (#[trigger] s.slots[i]) == s2.slots[i] by {}
    assert forall|j: (nat, nat)| #[trigger] s.ids.contains_key(j) implies has_slot(s, s.ids[j]) by {
        assert(has_slot(s2, s2.ids[j]));
    }
    copied_fields(env, p, s2, s);
    fields_trans(env, p, st, s2, s);
}

proof fn pages_fields(env: Env, st: State, picks: Picks, k: nat)
    requires
        k <= picks.len() <= st.slots.len(),
        ids_placed(st),
        build_pages(env, st, picks, k) is Ok,
    ensures
        fields_right(env, picks.len(), st, build_pages(env, st, picks, k)->Ok_0),
    decreases picks.len() - k,
{
    if k < picks.len() {
        let (src, page) = picks[k as int];
        page_fields(env, picks.len(), st, src, page, k + 1);
        let s = build_page(env, st, src, page, k + 1)->Ok_0;
        pages_fields(env, s, picks, k + 1);
        fields_trans(env, picks.len(), st, s, build_pages(env, s, picks, k + 1)->Ok_0);
    } else {
        copied_fields(env, picks.len(), st, st);
    }
}

/// When all is gathered, each form field that was copied keeps what the source field has.
pub proof fn gathered_fields_right(docs: Seq<PdfDocument>, picks: Picks, opts: SubsetOptions, k: (nat, nat))
    requires
        subset(docs, picks, opts) is Ok,
        gathered(docs, picks, opts).fields.contains_key(k),
    ensures
        field_right(plan(docs, picks, opts), gathered(docs, picks, opts), k),
        gathered(docs, picks, opts).fields[k] > picks.len(),
{
    let env = plan(docs, picks, opts);
    let start = planned(picks.len());
    pages_fields(env, start, picks, 0);
    let built = build_pages(env, start, picks, 0)->Ok_0;
    let st = gather(env, built).0;
    assert(start.page_ids =~= page_row(0));
    pages_right(env, start, picks, 0);
    gather_advances(env, built);
    assert(built.fields.contains_key(k));
    let n = built.fields[k];
    let (w, steps) = choose|w: nat, steps: nat| #[trigger] field_stands(env, built, k, w, steps);
    assert(dict_at(built.slots, n));
    gather_keeps(built.slots.len(), env, built);
    gather_remembers(env, built);
    gathering_keeps_pins(docs, picks, opts, n);
    let d = built.slots[n - 1].object->0->Dictionary_0;
    let e = st.slots[n - 1].object->0->Dictionary_0;
    assert(dict_at(st.slots, n));
    assert forall|key: Seq<char>| field_key(key) implies #[trigger] dict_get(e, key) == dict_get(d, key) by {
        field_key_apart(key);
        assert(entry_at(st.slots, n, key) == entry_at(built.slots, n, key));
    }
    assert(field_key("Type"@) && field_key("ByteRange"@));
    field_kept_moves(env, built.ids, st.ids, k.0, dict_of(docs[k.0 as int], k.1), d, e, steps + 1);
    assert(field_stands(env, st, k, w, steps));
}

proof fn field_entry_filed(
    docs: Seq<PdfDocument>,
    picks: Picks,
    opts: SubsetOptions,
    k: (nat, nat),
    w: nat,
    steps: nat,
    key: Seq<char>,
)
    requires
        subset(docs, picks, opts) is Ok,
        gathered(docs, picks, opts).fields.contains_key(k),
        in_file(docs, picks, opts, gathered(docs, picks, opts).fields[k]),
        gathered(docs, picks, opts).fields[k] > picks.len(),
        field_stands(plan(docs, picks, opts), gathered(docs, picks, opts), k, w, steps),
        ({
            let st = gathered(docs, picks, opts);
            entry_kept(
                plan(docs, picks, opts),
                st.ids,
                k.0,
                dict_of(docs[k.0 as int], k.1),
                st.slots[st.fields[k] - 1].object->0->Dictionary_0,
                key,
                steps + 1,
            )
        }),
    ensures
        ({
            let q = number_of(docs, picks, opts, gathered(docs, picks, opts).fields[k]);
            let o = file_objects(docs, picks, opts)[q - 1];
            &&& 1 <= q <= file_objects(docs, picks, opts).len()
            &&& o is Dictionary
            &&& entry_in_file(
                docs,
                picks,
                opts,
                k.0,
                dict_of(docs[k.0 as int], k.1),
                o->Dictionary_0,
                key,
                steps + 1,
            )
        }),
{
    let st = gathered(docs, picks, opts);
    let n = st.fields[k];
    let d = st.slots[n - 1].object->0->Dictionary_0;
    let e = unsigned_entries(d);
    assert forall|i: int| 0 <= i < e.len() implies (#[trigger] e[i]).0 == d[i].0 by {}
    same_place(e, d, "Type"@);
    filed_entry(docs, picks, opts, n, key);
    let q = number_of(docs, picks, opts, n);
    let o = file_objects(docs, picks, opts)[q - 1];
    filed_kept(docs, picks, opts, k.0, dict_of(docs[k.0 as int], k.1), d, o->Dictionary_0, key, steps + 1);
}

/// A form field of the file is the field of the source: each field that was copied has its type, its
/// names, its flags, its value and default, its look, its options and its greatest length exactly where
/// the source field has them, with the copies of their values, which are the values themselves where
/// those refer to nothing. The values of a field are copied one level deeper for each step that it lies
/// above the field of a widget.
pub proof fn file_fields_keep_their_entries(
    docs: Seq<PdfDocument>,
    picks: Picks,
    opts: SubsetOptions,
    k: (nat, nat),
)
    requires
        subset(docs, picks, opts) is Ok,
        gathered(docs, picks, opts).fields.contains_key(k),
        in_file(docs, picks, opts, gathered(docs, picks, opts).fields[k]),
    ensures
        ({
            let q = number_of(docs, picks, opts, gathered(docs, picks, opts).fields[k]);
            let o = file_objects(docs, picks, opts)[q - 1];
            let from = dict_of(docs[k.0 as int], k.1);
            &&& 1 <= q <= file_objects(docs, picks, opts).len()
            &&& o is Dictionary
            &&& exists|w: nat, steps: nat|
                #![trigger field_above(docs[k.0 as int], w, steps)]
                {
                    let d = o->Dictionary_0;
                    &&& steps <= 256
                    &&& field_above(docs[k.0 as int], w, steps) == Some(k.1)
                    &&& entry_in_file(docs, picks, opts, k.0, from, d, "FT"@, steps + 1)
                    &&& entry_in_file(docs, picks, opts, k.0, from, d, "T"@, steps + 1)
                    &&& entry_in_file(docs, picks, opts, k.0, from, d, "TU"@, steps + 1)
                    &&& entry_in_file(docs, picks, opts, k.0, from, d, "TM"@, steps + 1)
                    &&& entry_in_file(docs, picks, opts, k.0, from, d, "Ff"@, steps + 1)
                    &&& entry_in_file(docs, picks, opts, k.0, from, d, "V"@, steps + 1)
                    &&& entry_in_file(docs, picks, opts, k.0, from, d, "DV"@, steps + 1)
                    &&& entry_in_file(docs, picks, opts, k.0, from, d, "DA"@, steps + 1)
                    &&& entry_in_file(docs, picks, opts, k.0, from, d, "Q"@, steps + 1)
                    &&& entry_in_file(docs, picks, opts, k.0, from, d, "Opt"@, steps + 1)
                    &&& entry_in_file(docs, picks, opts, k.0, from, d, "MaxLen"@, steps + 1)
                }
        }),
{
    let env = plan(docs, picks, opts);
    let st = gathered(docs, picks, opts);
    gathered_fields_right(docs, picks, opts, k);
    let (w, steps) = choose|w: nat, steps: nat| #[trigger] field_stands(env, st, k, w, steps);
    field_entry_filed(docs, picks, opts, k, w, steps, "FT"@);
    field_entry_filed(docs, picks, opts, k, w, steps, "T"@);
    field_entry_filed(docs, picks, opts, k, w, steps, "TU"@);
    field_entry_filed(docs, picks, opts, k, w, steps, "TM"@);
    field_entry_filed(docs, picks, opts, k, w, steps, "Ff"@);
    field_entry_filed(docs, picks, opts, k, w, steps, "V"@);
    field_entry_filed(docs, picks, opts, k, w, steps, "DV"@);
    field_entry_filed(docs, picks, opts, k, w, steps, "DA"@);
    field_entry_filed(docs, picks, opts, k, w, steps, "Q"@);
    field_entry_filed(docs, picks, opts, k, w, steps, "Opt"@);
    field_entry_filed(docs, picks, opts, k, w, steps, "MaxLen"@);
    assert(field_above(docs[k.0 as int], w, steps) == Some(k.1));
}

} // verus!
