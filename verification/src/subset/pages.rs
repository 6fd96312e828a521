//! Building a kept page: its trimmed resources, its content and its annotations.

use vstd::prelude::*;
use crate::document::{resolve, Content, Error, Failure, PdfDocument};
use crate::object::{
    array_view, dict_get, dict_get_insert, dict_get_remove, dict_has, dict_insert, dict_is_name, dict_ref,
    dict_remove, new_ref, obj_dict, views, Dict, Entries, Obj, Object, ObjectRef,
};
use crate::text::{decimal_text, numbered, str_eq};
use super::acroform::{inherited, inherited_value, register_widget};
use super::copy::{carry, edit, keys_of, remap_entries, remap_entries_keys};
use super::dests::{remap_action, remap_dest, sub_array};
use super::faithful::{entries_copied, ids_placed};
use super::resources::{trimmed_resources, UsedNames};
use super::usage::{all_use, scan_all_used};
use super::{next_id, object_at, put, set_pin, with_slot, Builder, Env, SignaturePolicy, State};

verus! {

/// The attributes of a page that are copied as they are.
pub open spec fn geometry_keys() -> Seq<Seq<char>> {
    seq![
        "MediaBox"@,
        "CropBox"@,
        "BleedBox"@,
        "TrimBox"@,
        "ArtBox"@,
        "Rotate"@,
        "UserUnit"@,
        "Group"@,
    ]
}

/// What leads from an annotation to pages and fields, and is built anew.
pub open spec fn navigation_keys() -> Seq<Seq<char>> {
    seq!["Dest"@, "A"@, "Parent"@, "P"@]
}

/// What makes a widget a signature.
pub open spec fn signature_keys() -> Seq<Seq<char>> {
    seq!["V"@, "FT"@, "T"@, "TU"@, "Ff"@, "DV"@, "Lock"@, "SV"@, "DA"@, "DR"@]
}

/// A dictionary without the given keys.
pub open spec fn remove_all(d: Entries, keys: Seq<Seq<char>>) -> Entries
    decreases keys.len(),
{
    if keys.len() == 0 {
        d
    } else {
        dict_remove(remove_all(d, keys.drop_last()), keys.last())
    }
}

/// Is the annotation a signature widget, by the type or the value of its field? Both may come from
/// a field above it, of which `parent` is the first.
pub open spec fn is_signature(doc: PdfDocument, annot: Entries, parent: Option<nat>) -> bool {
    dict_is_name(annot, "Subtype"@, "Widget"@) && (inherited(doc, annot, parent, "FT"@, 0) == Some(
        Obj::Name("Sig"@),
    ) || match inherited(doc, annot, parent, "V"@, 0) {
        Some(v) => match annot_of(doc, v) {
            Some(d) => dict_is_name(d, "Type"@, "Sig"@),
            None => false,
        },
        None => false,
    })
}

/// Where an annotation leads in the output: the key and its value, or none where it leads nowhere.
pub open spec fn navigation(env: Env, src: nat, annot: Entries) -> Option<(Seq<char>, Obj)> {
    if !env.opts.keep_links {
        None
    } else {
        match dict_get(annot, "Dest"@) {
            Some(dest) => match remap_dest(env, src, dest) {
                Some(v) => Some(("Dest"@, v)),
                None => None,
            },
            None => match dict_get(annot, "A"@) {
                Some(action) => match remap_action(env, src, action) {
                    Some(v) => Some(("A"@, v)),
                    None => None,
                },
                None => None,
            },
        }
    }
}

/// Copy an annotation that was stripped of its navigation, and give it its new page and target.
pub open spec fn place_annot(
    env: Env,
    st: State,
    src: nat,
    annot: Entries,
    nav: Option<(Seq<char>, Obj)>,
    page_id: nat,
) -> (State, nat) {
    let (s1, d) = remap_entries(env, st, src, annot, 1);
    let d1 = dict_insert(d, "P"@, new_ref(page_id));
    let d2 = match nav {
        Some((key, value)) => dict_insert(d1, key, value),
        None => d1,
    };
    let n = next_id(s1);
    (put(with_slot(s1), n, Obj::Dictionary(d2)), n)
}

/// The state with the link of `annot` counted as severed, where it had one and `nav` is none.
pub open spec fn count_severed(st: State, annot: Entries, nav: Option<(Seq<char>, Obj)>) -> State {
    if nav is None && (dict_has(annot, "Dest"@) || dict_has(annot, "A"@)) {
        State { links_severed: st.links_severed + 1, ..st }
    } else {
        st
    }
}

/// Why a page with a signature is refused.
pub open spec fn signature_refusal(page_index: nat) -> Seq<char> {
    "page "@ + decimal_text(page_index)
        + " carries a digital signature; subsetting would invalidate it (SignaturePolicy::Refuse)"@
}

/// The warning that a signature was dropped.
pub open spec fn signature_warning(page_index: nat) -> Seq<char> {
    "page "@ + decimal_text(page_index)
        + ": digital signature dropped (rebuild invalidates it); visual appearance preserved"@
}

/// Copy a signature widget as a plain annotation, and record that the signature was dropped.
pub open spec fn keep_visual(
    env: Env,
    st: State,
    src: nat,
    annot: Entries,
    nav: Option<(Seq<char>, Obj)>,
    page_id: nat,
    page_index: nat,
) -> (State, nat) {
    let s1 = State {
        dropped_signatures: st.dropped_signatures + 1,
        warnings: st.warnings.push(signature_warning(page_index)),
        ..st
    };
    place_annot(env, s1, src, remove_all(annot, signature_keys()), nav, page_id)
}

/// Copy an annotation that is no signature, and enter it into the form where it is a field.
pub open spec fn keep_plain(
    env: Env,
    st: State,
    src: nat,
    annot: Entries,
    parent: Option<nat>,
    nav: Option<(Seq<char>, Obj)>,
    page_id: nat,
) -> (State, nat) {
    let (s1, aid) = place_annot(env, st, src, annot, nav, page_id);
    if env.opts.keep_acroform && (dict_has(annot, "FT"@) || parent is Some) {
        let (s2, field) = register_widget(env, set_pin(s1, aid, true), src, annot, aid, parent);
        match field {
            Some(f) => (edit(s2, aid, "Parent"@, new_ref(f)), aid),
            None => (s2, aid),
        }
    } else {
        (s1, aid)
    }
}

/// The annotation that an entry stands for.
pub open spec fn annot_of(doc: PdfDocument, entry: Obj) -> Option<Entries> {
    match resolve(doc, entry) {
        Some(o) => obj_dict(o),
        None => None,
    }
}

/// Copy an annotation. Gives a reference to the copy, or none where the entry is no annotation.
pub open spec fn process_annot(
    env: Env,
    st: State,
    src: nat,
    entry: Obj,
    page_id: nat,
    page_index: nat,
) -> Result<(State, Option<Obj>), Failure> {
    match annot_of(env.docs[src as int], entry) {
        None => Ok((st, None)),
        Some(annot) => {
            let nav = navigation(env, src, annot);
            let bare = remove_all(annot, navigation_keys());
            let s1 = count_severed(st, annot, nav);
            if !is_signature(env.docs[src as int], bare, dict_ref(annot, "Parent"@)) {
                let (s2, aid) = keep_plain(env, s1, src, bare, dict_ref(annot, "Parent"@), nav, page_id);
                Ok((s2, Some(new_ref(aid))))
            } else if env.opts.on_signature == SignaturePolicy::PreserveVisual {
                let (s2, aid) = keep_visual(env, s1, src, bare, nav, page_id, page_index);
                Ok((s2, Some(new_ref(aid))))
            } else {
                Err(Failure::InvalidPdf(signature_refusal(page_index)))
            }
        },
    }
}

/// Copy annotations in order. Gives `kept` with references to the copies after it.
pub open spec fn process_annots(
    env: Env,
    st: State,
    src: nat,
    entries: Seq<Obj>,
    page_id: nat,
    page_index: nat,
    kept: Seq<Obj>,
) -> Result<(State, Seq<Obj>), Failure>
    decreases entries.len(),
{
    if entries.len() == 0 {
        Ok((st, kept))
    } else {
        match process_annot(env, st, src, entries[0], page_id, page_index) {
            Err(e) => Err(e),
            Ok((s1, o)) => process_annots(
                env,
                s1,
                src,
                entries.skip(1),
                page_id,
                page_index,
                match o {
                    Some(r) => kept.push(r),
                    None => kept,
                },
            ),
        }
    }
}

/// A page copied up to its annotations: its geometry, trimmed resources and content.
pub open spec fn page_body(env: Env, st: State, src: nat, page: Entries, content: Content) -> (
    State,
    Entries,
) {
    let d0 = dict_insert(Seq::empty(), "Type"@, Obj::Name("Page"@));
    let (s1, d1) = carry(env, st, src, page, geometry_keys(), 1, d0);
    let (s2, d2) = match dict_get(page, "Resources"@) {
        Some(r) => match resolve(env.docs[src as int], r) {
            Some(res) => {
                let used = all_use(env.docs[src as int], res, content);
                let (s, t) = trimmed_resources(env, s1, src, res, used, 0);
                (s, dict_insert(d1, "Resources"@, t))
            },
            None => (s1, d1),
        },
        None => (s1, d1),
    };
    carry(env, s2, src, page, seq!["Contents"@], 1, d2)
}

/// Why a page that is no dictionary cannot be built.
pub open spec fn no_dictionary(page_index: nat) -> Seq<char> {
    "page "@ + decimal_text(page_index) + " is not a dictionary"@
}

/// Build the page at position `page_index` of a source as the object of number `page_id`.
pub open spec fn build_page(env: Env, st: State, src: nat, page_index: nat, page_id: nat) -> Result<
    State,
    Failure,
> {
    let doc = env.docs[src as int];
    if page_index >= doc.page_seq().len() {
        Err(Failure::PageNotFound(page_index))
    } else {
        let page = doc.page_seq()[page_index as int];
        match obj_dict(page.object@) {
            None => Err(Failure::InvalidPdf(no_dictionary(page_index))),
            Some(d) => {
                let (s1, d1) = page_body(env, st, src, d, page.content);
                let annots = match sub_array(doc, d, "Annots"@) {
                    Some(entries) => process_annots(
                        env,
                        s1,
                        src,
                        entries,
                        page_id,
                        page_index,
                        Seq::empty(),
                    ),
                    None => Ok((s1, Seq::empty())),
                };
                match annots {
                    Err(e) => Err(e),
                    Ok((s2, kept)) => {
                        let d2 = if kept.len() > 0 {
                            dict_insert(d1, "Annots"@, Obj::Array(kept))
                        } else {
                            d1
                        };
                        let s3 = put(s2, page_id, Obj::Dictionary(d2));
                        Ok(State { page_ids: s3.page_ids.push(page_id), ..s3 })
                    },
                }
            },
        }
    }
}

/// Is the entry an annotation that carries a signature?
pub open spec fn signed(env: Env, src: nat, entry: Obj) -> bool {
    match annot_of(env.docs[src as int], entry) {
        Some(annot) => is_signature(
            env.docs[src as int],
            remove_all(annot, navigation_keys()),
            dict_ref(annot, "Parent"@),
        ),
        None => false,
    }
}

/// Annotations are refused exactly where one of them carries a signature and the policy is to
/// refuse, and then for that reason.
pub proof fn refused_iff_signed(
    env: Env,
    st: State,
    src: nat,
    entries: Seq<Obj>,
    page_id: nat,
    page_index: nat,
    kept: Seq<Obj>,
)
    ensures
        ({
            let r = process_annots(env, st, src, entries, page_id, page_index, kept);
            &&& r is Err <==> env.opts.on_signature == SignaturePolicy::Refuse && exists|i: int|
                0 <= i < entries.len() && signed(env, src, #[trigger] entries[i])
            &&& r is Err ==> r->Err_0 == Failure::InvalidPdf(signature_refusal(page_index))
        }),
    decreases entries.len(),
{
    if entries.len() > 0 {
        let rest = entries.skip(1);
        if let Ok((s1, o)) = process_annot(env, st, src, entries[0], page_id, page_index) {
            let more = match o {
                Some(r) => kept.push(r),
                None => kept,
            };
            refused_iff_signed(env, s1, src, rest, page_id, page_index, more);
            assert forall|i: int| 0 <= i < rest.len() implies #[trigger] rest[i] == entries[i + 1] by {}
            if exists|i: int| 0 <= i < entries.len() && signed(env, src, #[trigger] entries[i]) {
                let i = choose|i: int| 0 <= i < entries.len() && signed(env, src, #[trigger] entries[i]);
                if i > 0 {
                    assert(signed(env, src, rest[i - 1]));
                }
            }
            if exists|i: int| 0 <= i < rest.len() && signed(env, src, #[trigger] rest[i]) {
                let i = choose|i: int| 0 <= i < rest.len() && signed(env, src, #[trigger] rest[i]);
                assert(signed(env, src, entries[i + 1]));
            }
        }
    }
}

/// The annotations of a page.
pub open spec fn page_annots(doc: PdfDocument, page_index: nat) -> Seq<Obj> {
    match obj_dict(doc.page_seq()[page_index as int].object@) {
        Some(d) => match sub_array(doc, d, "Annots"@) {
            Some(entries) => entries,
            None => Seq::empty(),
        },
        None => Seq::empty(),
    }
}

/// A page of the source is refused exactly where it is no dictionary, or where one of its
/// annotations carries a signature and the policy is to refuse.
pub proof fn page_refused_iff(env: Env, st: State, src: nat, page_index: nat, page_id: nat)
    requires
        page_index < env.docs[src as int].page_seq().len(),
    ensures
        ({
            let doc = env.docs[src as int];
            let annots = page_annots(doc, page_index);
            build_page(env, st, src, page_index, page_id) is Err <==> obj_dict(
                doc.page_seq()[page_index as int].object@,
            ) is None || (env.opts.on_signature == SignaturePolicy::Refuse && exists|i: int|
                0 <= i < annots.len() && signed(env, src, #[trigger] annots[i]))
        }),
{
    let doc = env.docs[src as int];
    let page = doc.page_seq()[page_index as int];
    let built = build_page(env, st, src, page_index, page_id);
    match obj_dict(page.object@) {
        Some(d) => {
            let (s1, d1) = page_body(env, st, src, d, page.content);
            match sub_array(doc, d, "Annots"@) {
                Some(entries) => {
                    assert(page_annots(doc, page_index) == entries);
                    refused_iff_signed(env, s1, src, entries, page_id, page_index, Seq::empty());
                    let annots = process_annots(env, s1, src, entries, page_id, page_index, Seq::empty());
                    assert(built is Err <==> annots is Err);
                },
                None => {
                    assert(page_annots(doc, page_index).len() == 0);
                    assert(built is Ok);
                },
            }
        },
        None => {
            assert(built is Err);
        },
    }
}

/// What is removed is gone, and nothing else.
pub proof fn removed_get(d: Entries, keys: Seq<Seq<char>>, k: Seq<char>)
    ensures
        dict_get(remove_all(d, keys), k) == (if keys.contains(k) {
            None
        } else {
            dict_get(d, k)
        }),
    decreases keys.len(),
{
    if keys.len() > 0 {
        let front = keys.drop_last();
        removed_get(d, front, k);
        dict_get_remove(remove_all(d, front), keys.last(), k);
        if front.contains(k) {
            let i = choose|i: int| 0 <= i < front.len() && front[i] == k;
            assert(keys[i] == k);
        }
        if keys.contains(k) && k != keys.last() {
            let i = choose|i: int| 0 <= i < keys.len() && keys[i] == k;
            assert(front[i] == k);
        }
        assert(keys[keys.len() - 1] == keys.last());
    }
}

proof fn same_keys_get(a: Entries, b: Entries, k: Seq<char>)
    requires
        a.len() == b.len(),
        forall|i: int| 0 <= i < a.len() ==> (#[trigger] a[i]).0 == b[i].0,
    ensures
        dict_get(a, k) is Some <==> dict_get(b, k) is Some,
    decreases a.len(),
{
    if a.len() > 0 {
        assert(a[0].0 == b[0].0);
        assert forall|i: int| 0 <= i < a.skip(1).len() implies (#[trigger] a.skip(1)[i]).0 == b.skip(1)[i].0 by {
            assert(a[i + 1].0 == b[i + 1].0);
        }
        same_keys_get(a.skip(1), b.skip(1), k);
    }
}

proof fn placed_get(
    env: Env,
    st: State,
    src: nat,
    annot: Entries,
    nav: Option<(Seq<char>, Obj)>,
    page_id: nat,
    k: Seq<char>,
)
    requires
        k != "P"@,
        nav is Some ==> (nav->0).0 != k,
    ensures
        ({
            let (s, n) = place_annot(env, st, src, annot, nav, page_id);
            &&& object_at(s, n) is Some
            &&& object_at(s, n)->0 is Dictionary
            &&& dict_has(object_at(s, n)->0->Dictionary_0, k) <==> dict_has(annot, k)
        }),
{
    let (s1, d) = remap_entries(env, st, src, annot, 1);
    remap_entries_keys(env, st, src, annot, 1);
    assert forall|i: int| 0 <= i < d.len() implies (#[trigger] d[i]).0 == annot[i].0 by {}
    same_keys_get(d, annot, k);
    let d1 = dict_insert(d, "P"@, new_ref(page_id));
    dict_get_insert(d, "P"@, new_ref(page_id), k);
    if let Some((key, value)) = nav {
        dict_get_insert(d1, key, value, k);
    }
}

/// The keys of a target are none of those that make a signature, nor that of the appearance.
proof fn nav_keys_apart(k: Seq<char>)
    requires
        signature_keys().contains(k) || k == "AP"@,
    ensures
        k != "P"@,
        k != "Dest"@,
        k != "A"@,
        k == "AP"@ ==> !signature_keys().contains(k) && !navigation_keys().contains(k),
{
    reveal_strlit("V");
    reveal_strlit("FT");
    reveal_strlit("T");
    reveal_strlit("TU");
    reveal_strlit("Ff");
    reveal_strlit("DV");
    reveal_strlit("Lock");
    reveal_strlit("SV");
    reveal_strlit("DA");
    reveal_strlit("DR");
    reveal_strlit("AP");
    reveal_strlit("P");
    reveal_strlit("Dest");
    reveal_strlit("A");
    reveal_strlit("Parent");
    assert("P"@.len() == 1 && "Dest"@.len() == 4 && "A"@.len() == 1 && "AP"@.len() == 2 && "Parent"@.len() == 6);
    assert("V"@.len() == 1 && "T"@.len() == 1 && "Lock"@.len() == 4);
    assert("FT"@.len() == 2 && "TU"@.len() == 2 && "Ff"@.len() == 2 && "DV"@.len() == 2 && "SV"@.len() == 2);
    assert("DA"@.len() == 2 && "DR"@.len() == 2);
    assert("V"@[0] == 'V' && "T"@[0] == 'T' && "P"@[0] == 'P' && "A"@[0] == 'A' && "AP"@[0] == 'A');
    assert("Lock"@[0] == 'L' && "Dest"@[0] == 'D');
    assert("FT"@[0] == 'F' && "TU"@[0] == 'T' && "Ff"@[0] == 'F' && "DV"@[0] == 'D' && "SV"@[0] == 'S');
    assert("DA"@[0] == 'D' && "DR"@[0] == 'D');
}

/// A signature is dropped and its appearance kept: the copy of a signature widget has none of the
/// keys that make a signature, has an appearance where the widget has one, and is no form field;
/// the report counts the signature and warns of it.
pub proof fn signature_becomes_plain(
    env: Env,
    st: State,
    src: nat,
    entry: Obj,
    page_id: nat,
    page_index: nat,
)
    requires
        signed(env, src, entry),
        env.opts.on_signature == SignaturePolicy::PreserveVisual,
        ids_placed(st),
    ensures
        ({
            let r = process_annot(env, st, src, entry, page_id, page_index);
            let s = r->Ok_0.0;
            let o = object_at(s, s.slots.len())->0;
            &&& r is Ok
            &&& r->Ok_0.1 == Some(new_ref(s.slots.len()))
            &&& object_at(s, s.slots.len()) is Some
            &&& o is Dictionary
            &&& forall|k: Seq<char>| #[trigger]
                signature_keys().contains(k) ==> !dict_has(o->Dictionary_0, k)
            &&& dict_has(o->Dictionary_0, "AP"@) <==> dict_has(
                annot_of(env.docs[src as int], entry)->0,
                "AP"@,
            )
            &&& s.fields == st.fields && s.links == st.links && s.tops == st.tops
            &&& s.dropped_signatures == st.dropped_signatures + 1
            &&& s.warnings == st.warnings.push(signature_warning(page_index))
        }),
{
    let annot = annot_of(env.docs[src as int], entry)->0;
    let nav = navigation(env, src, annot);
    let plain = remove_all(annot, navigation_keys());
    let rest = remove_all(plain, signature_keys());
    let s1 = count_severed(st, annot, nav);
    let s2 = State {
        dropped_signatures: s1.dropped_signatures + 1,
        warnings: s1.warnings.push(signature_warning(page_index)),
        ..s1
    };
    entries_copied(env, s2, src, rest, 1);
    let (s, n) = place_annot(env, s2, src, rest, nav, page_id);
    assert forall|k: Seq<char>| #[trigger] signature_keys().contains(k) implies !dict_has(
        object_at(s, n)->0->Dictionary_0,
        k,
    ) by {
        nav_keys_apart(k);
        placed_get(env, s2, src, rest, nav, page_id, k);
        removed_get(plain, signature_keys(), k);
    }
    nav_keys_apart("AP"@);
    placed_get(env, s2, src, rest, nav, page_id, "AP"@);
    removed_get(plain, signature_keys(), "AP"@);
    removed_get(annot, navigation_keys(), "AP"@);
}

/// A key and its value, by their views.
pub open spec fn nav_view(nav: Option<(&'static str, Object)>) -> Option<(Seq<char>, Obj)> {
    match nav {
        Some((key, value)) => Some((key@, value@)),
        None => None,
    }
}

/// A dictionary without the given keys.
pub fn remove_keys(d: Dict, keys: &[&str]) -> (r: Dict)
    ensures
        r@ == remove_all(d@, keys_of(keys@)),
{
    let mut out = d;
    let mut i: usize = 0;
    assert(keys_of(keys@).take(0) =~= Seq::empty());
    while i < keys.len()
        invariant
            i <= keys@.len(),
            out@ == remove_all(d@, keys_of(keys@).take(i as int)),
        decreases keys@.len() - i,
    {
        proof {
            let t = keys_of(keys@).take(i + 1);
            assert(t.drop_last() =~= keys_of(keys@).take(i as int));
            assert(t.last() == keys@[i as int]@);
        }
        let _ = out.remove(keys[i]);
        i += 1;
    }
    assert(keys_of(keys@).take(i as int) =~= keys_of(keys@));
    out
}

impl<'a> Builder<'a> {
    /// Build the page at position `page_index` of a source into the place of number `page_id`. A page
    /// that is refused leaves everything as it was.
    pub fn build_page(&mut self, src: usize, page_index: usize, page_id: usize) -> (r: Result<(), Error>)
        requires
            src < old(self).env().docs.len(),
        ensures
            final(self).env() == old(self).env(),
            match r {
                Ok(_) => build_page(
                    old(self).env(),
                    old(self)@,
                    src as nat,
                    page_index as nat,
                    page_id as nat,
                ) == Ok::<State, Failure>(final(self)@),
                Err(e) => build_page(
                    old(self).env(),
                    old(self)@,
                    src as nat,
                    page_index as nat,
                    page_id as nat,
                ) == Err::<State, Failure>(e@) && final(self)@ == old(self)@,
            },
    {
        let doc: &'a PdfDocument = self.sources[src];
        let page = match doc.get_page(page_index) {
            Ok(p) => p,
            Err(e) => return Err(e),
        };
        let page_dict = match page.object.as_dict() {
            Some(d) => d,
            None => return Err(Error::InvalidPdf(numbered("page ", page_index, " is not a dictionary"))),
        };
        let annots = self.sub_array(src, page_dict, "Annots");
        if let Some(arr) = annots {
            if self.refuses(src, arr) {
                proof {
                    let (s1, _) = page_body(self.env(), self@, src as nat, page_dict@, page.content);
                    refused_iff_signed(
                        self.env(),
                        s1,
                        src as nat,
                        views(arr@),
                        page_id as nat,
                        page_index as nat,
                        Seq::empty(),
                    );
                }
                return Err(
                    Error::InvalidPdf(
                        numbered(
                            "page ",
                            page_index,
                            " carries a digital signature; subsetting would invalidate it (SignaturePolicy::Refuse)",
                        ),
                    ),
                );
            }
        }
        let mut new_page = self.page_body(src, page_dict, &page.content);
        if let Some(arr) = annots {
            proof {
                refused_iff_signed(
                    self.env(),
                    self@,
                    src as nat,
                    views(arr@),
                    page_id as nat,
                    page_index as nat,
                    Seq::empty(),
                );
            }
            let kept = self.process_annots(src, arr, page_id, page_index);
            assert(views(kept@).len() == kept@.len());
            if kept.len() > 0 {
                proof {
                    array_view(kept);
                }
                new_page.insert("Annots", Object::Array(kept));
            }
        }
        self.put(page_id, Object::Dictionary(new_page));
        let ghost s3 = self@;
        self.page_ids.push(page_id);
        assert(self@.page_ids =~= s3.page_ids.push(page_id as nat));
        Ok(())
    }

    /// Are the annotations refused because one of them carries a signature?
    fn refuses(&self, src: usize, arr: &Vec<Object>) -> (r: bool)
        requires
            src < self.env().docs.len(),
        ensures
            r == (self.env().opts.on_signature == SignaturePolicy::Refuse && exists|i: int|
                0 <= i < views(arr@).len() && signed(self.env(), src as nat, #[trigger] views(arr@)[i])),
    {
        if self.opts.on_signature != SignaturePolicy::Refuse {
            return false;
        }
        let ghost entries = views(arr@);
        let mut i: usize = 0;
        while i < arr.len()
            invariant
                i <= arr@.len(),
                entries == views(arr@),
                src < self.env().docs.len(),
                self.env().opts.on_signature == SignaturePolicy::Refuse,
                forall|j: int| 0 <= j < i ==> !signed(self.env(), src as nat, #[trigger] entries[j]),
            decreases arr@.len() - i,
        {
            assert(entries[i as int] == arr@[i as int]@);
            if self.is_signed(src, &arr[i]) {
                return true;
            }
            i += 1;
        }
        false
    }

    /// Is the entry an annotation that carries a signature?
    fn is_signed(&self, src: usize, entry: &Object) -> (r: bool)
        requires
            src < self.env().docs.len(),
        ensures
            r == signed(self.env(), src as nat, entry@),
    {
        match self.resolve(src, entry) {
            Some(o) => match o.as_dict() {
                Some(d) => {
                    let keys: [&str; 4] = ["Dest", "A", "Parent", "P"];
                    assert(keys_of(keys@) =~= navigation_keys());
                    let annot = remove_keys(d.clone(), &keys);
                    self.is_signature_widget(src, &annot, d.get_ref("Parent"))
                },
                None => false,
            },
            None => false,
        }
    }

    fn page_body(&mut self, src: usize, page: &Dict, content: &Content) -> (r: Dict)
        requires
            src < old(self).env().docs.len(),
        ensures
            final(self).env() == old(self).env(),
            (final(self)@, r@) == page_body(
                old(self).env(),
                old(self)@,
                src as nat,
                page@,
                *content,
            ),
    {
        let mut out = Dict::new();
        out.insert("Type", Object::name("Page"));
        let geometry: [&str; 8] = [
            "MediaBox",
            "CropBox",
            "BleedBox",
            "TrimBox",
            "ArtBox",
            "Rotate",
            "UserUnit",
            "Group",
        ];
        assert(keys_of(geometry@) =~= geometry_keys());
        out = self.carry(src, page, &geometry, 1, out);
        if let Some(r) = page.get("Resources") {
            if let Some(res) = self.resolve(src, r) {
                let doc: &PdfDocument = self.sources[src];
                let mut used = UsedNames::new();
                scan_all_used(doc, res, content, &mut used);
                assert(used@ =~= all_use(*doc, res@, *content));
                let trimmed = self.build_trimmed_resources(src, res, &used, 0);
                out.insert("Resources", trimmed);
            }
        }
        let contents: [&str; 1] = ["Contents"];
        assert(keys_of(contents@) =~= seq!["Contents"@]);
        self.carry(src, page, &contents, 1, out)
    }

    /// Copy annotations of which none is refused.
    fn process_annots(&mut self, src: usize, arr: &Vec<Object>, page_id: usize, page_index: usize) -> (kept:
        Vec<Object>)
        requires
            src < old(self).env().docs.len(),
            process_annots(
                old(self).env(),
                old(self)@,
                src as nat,
                views(arr@),
                page_id as nat,
                page_index as nat,
                Seq::empty(),
            ) is Ok,
        ensures
            final(self).env() == old(self).env(),
            process_annots(
                old(self).env(),
                old(self)@,
                src as nat,
                views(arr@),
                page_id as nat,
                page_index as nat,
                Seq::empty(),
            ) == Ok::<(State, Seq<Obj>), Failure>((final(self)@, views(kept@))),
    {
        let mut kept: Vec<Object> = Vec::new();
        let mut i: usize = 0;
        let ghost entries = views(arr@);
        assert(entries.skip(0) =~= entries);
        assert(views(kept@) =~= Seq::empty());
        while i < arr.len()
            invariant
                i <= arr@.len(),
                entries == views(arr@),
                src < self.env().docs.len(),
                self.env() == old(self).env(),
                process_annots(
                    old(self).env(),
                    old(self)@,
                    src as nat,
                    entries,
                    page_id as nat,
                    page_index as nat,
                    Seq::empty(),
                ) == process_annots(
                    old(self).env(),
                    self@,
                    src as nat,
                    entries.skip(i as int),
                    page_id as nat,
                    page_index as nat,
                    views(kept@),
                ),
                process_annots(
                    old(self).env(),
                    old(self)@,
                    src as nat,
                    entries,
                    page_id as nat,
                    page_index as nat,
                    Seq::empty(),
                ) is Ok,
            decreases arr@.len() - i,
        {
            assert(entries.skip(i as int)[0] == arr@[i as int]@);
            assert(entries.skip(i as int).skip(1) =~= entries.skip(i + 1));
            match self.process_annot(src, &arr[i], page_id, page_index) {
                Ok(Some(r)) => {
                    let ghost before = views(kept@);
                    kept.push(r);
                    assert(views(kept@) =~= before.push(r@));
                },
                Ok(None) => {},
                Err(_) => {},
            }
            i += 1;
        }
        assert(entries.skip(i as int).len() == 0);
        kept
    }

    /// Is the annotation a signature widget?
    pub fn is_signature_widget(&self, src: usize, annot: &Dict, parent: Option<ObjectRef>) -> (r: bool)
        requires
            src < self.env().docs.len(),
        ensures
            r == is_signature(
                self.env().docs[src as int],
                annot@,
                match parent {
                    Some(p) => Some(p.id as nat),
                    None => None,
                },
            ),
    {
        let doc: &PdfDocument = self.sources[src];
        let is_sig_field = match inherited_value(doc, annot, parent, "FT", 0) {
            Some(o) => match o.as_name() {
                Some(n) => str_eq(n, "Sig"),
                None => false,
            },
            None => false,
        };
        let v_is_sig = match inherited_value(doc, annot, parent, "V", 0) {
            Some(v) => match doc.resolve_object(v) {
                Ok(o) => match o.as_dict() {
                    Some(d) => d.is_name("Type", "Sig"),
                    None => false,
                },
                Err(_) => false,
            },
            None => false,
        };
        annot.is_name("Subtype", "Widget") && (is_sig_field || v_is_sig)
    }

    /// Where an annotation leads in the output.
    fn annot_navigation(&self, src: usize, annot: &Dict) -> (r: Option<(&'static str, Object)>)
        requires
            src < self.env().docs.len(),
        ensures
            nav_view(r) == navigation(self.env(), src as nat, annot@),
    {
        if !self.opts.keep_links {
            return None;
        }
        match annot.get("Dest") {
            Some(dest) => match self.remap_dest_value(src, dest) {
                Some(v) => Some(("Dest", v)),
                None => None,
            },
            None => match annot.get("A") {
                Some(action) => match self.remap_action(src, action) {
                    Some(v) => Some(("A", v)),
                    None => None,
                },
                None => None,
            },
        }
    }

    fn place_annot(
        &mut self,
        src: usize,
        annot: &Dict,
        nav: Option<(&'static str, Object)>,
        page_id: usize,
    ) -> (id: usize)
        requires
            src < old(self).env().docs.len(),
        ensures
            final(self).env() == old(self).env(),
            (final(self)@, id as nat) == place_annot(
                old(self).env(),
                old(self)@,
                src as nat,
                annot@,
                nav_view(nav),
                page_id as nat,
            ),
    {
        let mut remapped = self.remap_dict(src, annot, 1);
        remapped.insert("P", Object::reference(page_id));
        if let Some((key, value)) = nav {
            remapped.insert(key, value);
        }
        let aid = self.allocate();
        self.put(aid, Object::Dictionary(remapped));
        aid
    }

    fn keep_visual(
        &mut self,
        src: usize,
        annot: Dict,
        nav: Option<(&'static str, Object)>,
        page_id: usize,
        page_index: usize,
    ) -> (id: usize)
        requires
            src < old(self).env().docs.len(),
        ensures
            final(self).env() == old(self).env(),
            (final(self)@, id as nat) == keep_visual(
                old(self).env(),
                old(self)@,
                src as nat,
                annot@,
                nav_view(nav),
                page_id as nat,
                page_index as nat,
            ),
    {
        let marks: [&str; 10] = ["V", "FT", "T", "TU", "Ff", "DV", "Lock", "SV", "DA", "DR"];
        assert(keys_of(marks@) =~= signature_keys());
        let plain = remove_keys(annot, &marks);
        self.dropped_signatures.bump();
        self.warnings.push(
            numbered(
                "page ",
                page_index,
                ": digital signature dropped (rebuild invalidates it); visual appearance preserved",
            ),
        );
        assert(self@.warnings =~= old(self)@.warnings.push(signature_warning(page_index as nat)));
        self.place_annot(src, &plain, nav, page_id)
    }

    fn keep_plain(
        &mut self,
        src: usize,
        annot: &Dict,
        parent: Option<ObjectRef>,
        nav: Option<(&'static str, Object)>,
        page_id: usize,
    ) -> (id: usize)
        requires
            src < old(self).env().docs.len(),
        ensures
            final(self).env() == old(self).env(),
            (final(self)@, id as nat) == keep_plain(
                old(self).env(),
                old(self)@,
                src as nat,
                annot@,
                match parent {
                    Some(p) => Some(p.id as nat),
                    None => None,
                },
                nav_view(nav),
                page_id as nat,
            ),
    {
        let aid = self.place_annot(src, annot, nav, page_id);
        if self.opts.keep_acroform && (annot.contains_key("FT") || parent.is_some()) {
            self.set_pin(aid, true);
            if let Some(field) = self.register_form_widget(src, annot, aid, parent) {
                self.edit(aid, "Parent", Object::reference(field));
            }
        }
        aid
    }

    /// Copy an annotation. Gives a reference to the copy.
    pub fn process_annot(&mut self, src: usize, entry: &Object, page_id: usize, page_index: usize) -> (r:
        Result<Option<Object>, Error>)
        requires
            src < old(self).env().docs.len(),
        ensures
            final(self).env() == old(self).env(),
            ({
                let wanted = process_annot(
                    old(self).env(),
                    old(self)@,
                    src as nat,
                    entry@,
                    page_id as nat,
                    page_index as nat,
                );
                match r {
                    Ok(Some(o)) => wanted == Ok::<(State, Option<Obj>), Failure>(
                        (final(self)@, Some(o@)),
                    ),
                    Ok(None) => wanted == Ok::<(State, Option<Obj>), Failure>((final(self)@, None)),
                    Err(e) => wanted == Err::<(State, Option<Obj>), Failure>(e@),
                }
            }),
    {
        let source_annot = match self.resolve(src, entry) {
            Some(o) => match o.as_dict() {
                Some(d) => d,
                None => return Ok(None),
            },
            None => return Ok(None),
        };
        let nav = self.annot_navigation(src, source_annot);
        if nav.is_none() && (source_annot.contains_key("Dest") || source_annot.contains_key("A")) {
            self.links_severed.bump();
        }
        let parent = source_annot.get_ref("Parent");
        let keys: [&str; 4] = ["Dest", "A", "Parent", "P"];
        assert(keys_of(keys@) =~= navigation_keys());
        let annot = remove_keys(source_annot.clone(), &keys);
        assert(self@ == count_severed(old(self)@, source_annot@, nav_view(nav)));
        let aid = if !self.is_signature_widget(src, &annot, parent) {
            self.keep_plain(src, &annot, parent, nav, page_id)
        } else {
            match self.opts.on_signature {
                SignaturePolicy::PreserveVisual => self.keep_visual(src, annot, nav, page_id, page_index),
                SignaturePolicy::Refuse => {
                    return Err(
                        Error::InvalidPdf(
                            numbered(
                                "page ",
                                page_index,
                                " carries a digital signature; subsetting would invalidate it (SignaturePolicy::Refuse)",
                            ),
                        ),
                    );
                },
            }
        };
        Ok(Some(Object::reference(aid)))
    }
}

} // verus!
