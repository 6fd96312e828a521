//! Destinations and actions, turned to the kept pages.

use vstd::prelude::*;
use crate::document::{resolve, PdfDocument};
use crate::object::{
    array_view, dict_get, dict_get_insert, dict_get_remove, dict_has, dict_insert, dict_ref, dict_remove, new_ref,
    obj_array, obj_dict, obj_ref, views, Dict, Entries, Obj, Object,
};
use crate::text::bytes_eq;
use super::closed::{get_mentions, insert_mentions};
use super::direct::{
    direct, direct_copy, direct_dict, direct_entries, direct_entries_mention_none, direct_mentions_none,
};
use super::refs::{entries_mention, mentions};
use super::resources::sub_dict;
use super::unsigned::same_place;
use super::{Builder, Env};

verus! {

/// Greatest number of steps from a destination to its array.
pub const MAX_DEST_STEPS: usize = 8;

/// Greatest depth of a name tree.
pub const MAX_NAME_TREE_DEPTH: usize = 32;

/// The catalog of a document.
pub open spec fn catalog(doc: PdfDocument) -> Option<Entries> {
    match obj_dict(doc.root()) {
        Some(t) => match dict_ref(t, "Root"@) {
            Some(id) => match doc.lookup(id) {
                Some(o) => obj_dict(o),
                None => None,
            },
            None => None,
        },
        None => None,
    }
}

/// The array under `key`, directly or through a reference.
pub open spec fn sub_array(doc: PdfDocument, d: Entries, key: Seq<char>) -> Option<Seq<Obj>> {
    match dict_get(d, key) {
        Some(o) => match resolve(doc, o) {
            Some(o) => obj_array(o),
            None => None,
        },
        None => None,
    }
}

/// What follows the string `key` in a sequence of keys and values.
pub open spec fn find_pair(names: Seq<Obj>, key: Seq<u8>) -> Option<Obj>
    decreases names.len(),
{
    if names.len() < 2 {
        None
    } else if names[0] == Obj::String(key) {
        Some(names[1])
    } else {
        find_pair(names.skip(2), key)
    }
}

/// What a name tree holds under `key`: the first find in its own names, then in its kids.
pub open spec fn name_tree(doc: PdfDocument, node: Obj, key: Seq<u8>, depth: nat) -> Option<Obj>
    decreases MAX_NAME_TREE_DEPTH + 1 - depth, 1nat, 0nat,
{
    if depth > MAX_NAME_TREE_DEPTH {
        None
    } else {
        match obj_dict(node) {
            Some(nd) => {
                let own = match sub_array(doc, nd, "Names"@) {
                    Some(names) => find_pair(names, key),
                    None => None,
                };
                if own is Some {
                    own
                } else {
                    match sub_array(doc, nd, "Kids"@) {
                        Some(kids) => name_tree_kids(doc, kids, key, depth + 1),
                        None => None,
                    }
                }
            },
            None => None,
        }
    }
}

/// The first find in a sequence of name trees.
pub open spec fn name_tree_kids(doc: PdfDocument, kids: Seq<Obj>, key: Seq<u8>, depth: nat) -> Option<
    Obj,
>
    decreases MAX_NAME_TREE_DEPTH + 1 - depth, 2nat, kids.len(),
{
    if kids.len() == 0 {
        None
    } else {
        let first = match resolve(doc, kids[0]) {
            Some(kid) => name_tree(doc, kid, key, depth),
            None => None,
        };
        if first is Some {
            first
        } else {
            name_tree_kids(doc, kids.skip(1), key, depth)
        }
    }
}

/// The destination that the catalog's `Dests` dictionary gives a name.
pub open spec fn named_dest_name(doc: PdfDocument, name: Seq<char>) -> Option<Obj> {
    match catalog(doc) {
        Some(cat) => match sub_dict(doc, cat, "Dests"@) {
            Some(dests) => dict_get(dests, name),
            None => None,
        },
        None => None,
    }
}

/// The destination that the catalog's name tree of destinations gives a string.
pub open spec fn named_dest_string(doc: PdfDocument, key: Seq<u8>) -> Option<Obj> {
    match catalog(doc) {
        Some(cat) => match sub_dict(doc, cat, "Names"@) {
            Some(names) => match dict_get(names, "Dests"@) {
                Some(d) => match resolve(doc, d) {
                    Some(dests) => name_tree(doc, dests, key, 0),
                    None => None,
                },
                None => None,
            },
            None => None,
        },
        None => None,
    }
}

/// The array of a destination: given directly, by reference, wrapped under `D`, or by name.
pub open spec fn dest_array(doc: PdfDocument, dest: Obj, steps: nat) -> Option<Seq<Obj>>
    decreases MAX_DEST_STEPS + 1 - steps,
{
    if steps > MAX_DEST_STEPS {
        None
    } else {
        match dest {
            Obj::Array(a) => Some(a),
            Obj::Reference(id, _) => match doc.lookup(id) {
                Some(o) => dest_array(doc, o, steps + 1),
                None => None,
            },
            Obj::Dictionary(d) => match dict_get(d, "D"@) {
                Some(o) => dest_array(doc, o, steps + 1),
                None => None,
            },
            Obj::Name(n) => match named_dest_name(doc, n) {
                Some(o) => dest_array(doc, o, steps + 1),
                None => None,
            },
            Obj::String(s) => match named_dest_string(doc, s) {
                Some(o) => dest_array(doc, o, steps + 1),
                None => None,
            },
            _ => None,
        }
    }
}

/// The source page that a destination leads to.
pub open spec fn dest_page(doc: PdfDocument, dest: Obj) -> Option<nat> {
    match dest_array(doc, dest, 0) {
        Some(a) => if a.len() > 0 {
            obj_ref(a[0])
        } else {
            None
        },
        None => None,
    }
}

/// A destination with its page replaced by the new page, and nothing else that refers to an object;
/// none where that page is not kept.
pub open spec fn remap_dest(env: Env, src: nat, dest: Obj) -> Option<Obj> {
    let doc = env.docs[src as int];
    match dest_page(doc, dest) {
        Some(id) => if env.pages.contains_key((src, id)) {
            Some(
                Obj::Array(
                    dest_array(doc, dest, 0)->0.map_values(|o: Obj| direct(doc, o)).update(
                        0,
                        new_ref(env.pages[(src, id)]),
                    ),
                ),
            )
        } else {
            None
        },
        None => None,
    }
}

/// An action for the output: a jump turned to the new page, or an action that leaves the document or
/// is named. Neither is followed by another, nor refers to an object but the page. All else is
/// dropped.
pub open spec fn remap_action(env: Env, src: nat, action: Obj) -> Option<Obj> {
    match resolve(env.docs[src as int], action) {
        Some(act) => match obj_dict(act) {
            Some(ad) => {
                let own = direct_entries(env.docs[src as int], dict_remove(ad, "Next"@));
                if dict_get(ad, "S"@) == Some(Obj::Name("GoTo"@)) {
                    match dict_get(ad, "D"@) {
                        Some(d) => match remap_dest(env, src, d) {
                            Some(new_d) => Some(Obj::Dictionary(dict_insert(own, "D"@, new_d))),
                            None => None,
                        },
                        None => None,
                    }
                } else if dict_get(ad, "S"@) == Some(Obj::Name("URI"@)) || dict_get(ad, "S"@) == Some(
                    Obj::Name("Named"@),
                ) {
                    Some(Obj::Dictionary(own))
                } else {
                    None
                }
            },
            None => None,
        },
        None => None,
    }
}

/// A destination is kept exactly where its page is kept, and then leads to the new page, with all
/// else as it was but for references.
pub proof fn dest_kept_iff(env: Env, src: nat, dest: Obj)
    ensures
        ({
            let doc = env.docs[src as int];
            let page = dest_page(doc, dest);
            &&& remap_dest(env, src, dest) is Some <==> page is Some && env.pages.contains_key((src, page->0))
            &&& remap_dest(env, src, dest) matches Some(o) ==> {
                &&& o is Array
                &&& o->Array_0.len() == dest_array(doc, dest, 0)->0.len() > 0
                &&& o->Array_0[0] == new_ref(env.pages[(src, page->0)])
                &&& forall|i: int|
                    0 < i < o->Array_0.len() ==> #[trigger] o->Array_0[i] == direct(
                        doc,
                        dest_array(doc, dest, 0)->0[i],
                    )
            }
        }),
{
}

/// A destination that is kept refers to its new page and to nothing else.
pub proof fn dest_mentions_page(env: Env, src: nat, dest: Obj, m: nat)
    requires
        remap_dest(env, src, dest) is Some,
    ensures
        mentions(remap_dest(env, src, dest)->0, m) <==> m == env.pages[(src, dest_page(env.docs[src as int], dest)->0)],
{
    let doc = env.docs[src as int];
    let out = remap_dest(env, src, dest)->0->Array_0;
    let page = env.pages[(src, dest_page(doc, dest)->0)];
    assert forall|i: int| 0 < i < out.len() implies !mentions(#[trigger] out[i], m) by {
        direct_mentions_none(doc, dest_array(doc, dest, 0)->0[i], m);
    }
    assert(out[0] == new_ref(page));
    assert(mentions(out[0], m) <==> m == page);
}

/// An action that is kept stands alone: it is followed by no other, and refers to no object but, where
/// it is a jump, the new page at the head of its destination.
pub proof fn action_stands_alone(env: Env, src: nat, action: Obj)
    requires
        remap_action(env, src, action) is Some,
    ensures
        ({
            let ad = obj_dict(resolve(env.docs[src as int], action)->0)->0;
            let out = remap_action(env, src, action)->0;
            let d = out->Dictionary_0;
            &&& out is Dictionary
            &&& dict_get(d, "Next"@) is None
            &&& if dict_get(ad, "S"@) == Some(Obj::Name("GoTo"@)) {
                let page = env.pages[(src, dest_page(env.docs[src as int], dict_get(ad, "D"@)->0)->0)];
                &&& dict_get(d, "D"@) matches Some(Obj::Array(dest)) && dest.len() > 0 && dest[0] == new_ref(page)
                    && forall|i: int, m: nat| 0 < i < dest.len() ==> !#[trigger] mentions(dest[i], m)
                &&& forall|k: Seq<char>, m: nat|
                    k != "D"@ && dict_has(d, k) ==> !#[trigger] mentions(dict_get(d, k)->0, m)
                &&& forall|m: nat| #[trigger] mentions(out, m) <==> m == page
            } else {
                forall|m: nat| !#[trigger] mentions(out, m)
            }
        }),
{
    let doc = env.docs[src as int];
    let ad = obj_dict(resolve(doc, action)->0)->0;
    let rest = dict_remove(ad, "Next"@);
    let own = direct_entries(doc, rest);
    let out = remap_action(env, src, action)->0;
    let d = out->Dictionary_0;
    dict_get_remove(ad, "Next"@, "Next"@);
    assert forall|i: int| 0 <= i < own.len() implies (#[trigger] own[i]).0 == rest[i].0 by {}
    same_place(own, rest, "Next"@);
    assert(dict_get(own, "Next"@) is None);
    assert forall|m: nat| !#[trigger] entries_mention(own, m) by {
        direct_entries_mention_none(doc, rest, m);
    }
    if dict_get(ad, "S"@) == Some(Obj::Name("GoTo"@)) {
        let dest = dict_get(ad, "D"@)->0;
        let new_d = remap_dest(env, src, dest)->0;
        let page = env.pages[(src, dest_page(doc, dest)->0)];
        reveal_strlit("Next");
        reveal_strlit("D");
        assert("Next"@.len() == 4 && "D"@.len() == 1);
        dict_get_insert(own, "D"@, new_d, "Next"@);
        dict_get_insert(own, "D"@, new_d, "D"@);
        let items = new_d->Array_0;
        assert forall|i: int, m: nat| 0 < i < items.len() implies !#[trigger] mentions(items[i], m) by {
            direct_mentions_none(doc, dest_array(doc, dest, 0)->0[i], m);
        }
        assert forall|k: Seq<char>, m: nat| k != "D"@ && dict_has(d, k) implies !#[trigger] mentions(
            dict_get(d, k)->0,
            m,
        ) by {
            dict_get_insert(own, "D"@, new_d, k);
            if mentions(dict_get(own, k)->0, m) {
                get_mentions(own, k, m);
            }
        }
        assert forall|m: nat| #[trigger] mentions(out, m) <==> m == page by {
            dest_mentions_page(env, src, dest, m);
            if mentions(out, m) {
                insert_mentions(own, "D"@, new_d, m);
            }
            if m == page {
                get_mentions(d, "D"@, m);
            }
        }
    } else {
        assert forall|m: nat| !#[trigger] mentions(out, m) by {
            assert(!entries_mention(own, m));
        }
    }
}

impl<'a> Builder<'a> {
    /// The catalog of a source.
    pub fn source_catalog(&self, src: usize) -> (r: Option<&'a Dict>)
        requires
            src < self.env().docs.len(),
        ensures
            match r {
                Some(d) => catalog(self.env().docs[src as int]) == Some(d@),
                None => catalog(self.env().docs[src as int]) is None,
            },
    {
        let doc: &'a PdfDocument = self.sources[src];
        match doc.trailer().as_dict() {
            Some(t) => match t.get_ref("Root") {
                Some(r) => match doc.load_object(r) {
                    Some(o) => o.as_dict(),
                    None => None,
                },
                None => None,
            },
            None => None,
        }
    }

    /// The array under `key`, directly or through a reference.
    pub fn sub_array<'b>(&self, src: usize, d: &'b Dict, key: &str) -> (r: Option<&'b Vec<Object>>)
        where 'a: 'b
        requires
            src < self.env().docs.len(),
        ensures
            match r {
                Some(a) => sub_array(self.env().docs[src as int], d@, key@) == Some(views(a@)),
                None => sub_array(self.env().docs[src as int], d@, key@) is None,
            },
    {
        match d.get(key) {
            Some(o) => match self.resolve(src, o) {
                Some(o) => o.as_array(),
                None => None,
            },
            None => None,
        }
    }

    /// The array of a destination.
    pub fn dest_to_array<'b>(&self, src: usize, dest: &'b Object, depth: usize) -> (r: Option<
        &'b Vec<Object>,
    >)
        where 'a: 'b
        requires
            src < self.env().docs.len(),
        ensures
            match r {
                Some(a) => dest_array(self.env().docs[src as int], dest@, depth as nat) == Some(views(a@)),
                None => dest_array(self.env().docs[src as int], dest@, depth as nat) is None,
            },
        decreases MAX_DEST_STEPS + 1 - depth,
    {
        broadcast use array_view;

        if depth > MAX_DEST_STEPS {
            return None;
        }
        let doc: &'a PdfDocument = self.sources[src];
        match dest {
            Object::Array(a) => Some(a),
            Object::Reference(r) => match doc.load_object(*r) {
                Some(o) => self.dest_to_array(src, o, depth + 1),
                None => None,
            },
            Object::Dictionary(d) => match d.get("D") {
                Some(o) => self.dest_to_array(src, o, depth + 1),
                None => None,
            },
            Object::Name(n) => match self.resolve_named_dest_name(src, n.as_str()) {
                Some(o) => self.dest_to_array(src, o, depth + 1),
                None => None,
            },
            Object::String(s) => match self.resolve_named_dest_string(src, s.as_slice()) {
                Some(o) => self.dest_to_array(src, o, depth + 1),
                None => None,
            },
            _ => None,
        }
    }

    /// The destination that the catalog's dictionary of destinations gives a name.
    pub fn resolve_named_dest_name(&self, src: usize, name: &str) -> (r: Option<&'a Object>)
        requires
            src < self.env().docs.len(),
        ensures
            match r {
                Some(o) => named_dest_name(self.env().docs[src as int], name@) == Some(o@),
                None => named_dest_name(self.env().docs[src as int], name@) is None,
            },
    {
        match self.source_catalog(src) {
            Some(cat) => match self.sub_dict(src, cat, "Dests") {
                Some(dests) => dests.get(name),
                None => None,
            },
            None => None,
        }
    }

    /// The destination that the catalog's name tree of destinations gives a string.
    pub fn resolve_named_dest_string(&self, src: usize, key: &[u8]) -> (r: Option<&'a Object>)
        requires
            src < self.env().docs.len(),
        ensures
            match r {
                Some(o) => named_dest_string(self.env().docs[src as int], key@) == Some(o@),
                None => named_dest_string(self.env().docs[src as int], key@) is None,
            },
    {
        match self.source_catalog(src) {
            Some(cat) => match self.sub_dict(src, cat, "Names") {
                Some(names) => match names.get("Dests") {
                    Some(d) => match self.resolve(src, d) {
                        Some(dests) => self.name_tree_lookup(src, dests, key, 0),
                        None => None,
                    },
                    None => None,
                },
                None => None,
            },
            None => None,
        }
    }

    /// What a name tree holds under `key`.
    pub fn name_tree_lookup<'b>(&self, src: usize, node: &'b Object, key: &[u8], depth: usize) -> (r:
        Option<&'b Object>)
        where 'a: 'b
        requires
            src < self.env().docs.len(),
        ensures
            match r {
                Some(o) => name_tree(self.env().docs[src as int], node@, key@, depth as nat) == Some(
                    o@,
                ),
                None => name_tree(self.env().docs[src as int], node@, key@, depth as nat) is None,
            },
        decreases MAX_NAME_TREE_DEPTH + 1 - depth,
    {
        if depth > MAX_NAME_TREE_DEPTH {
            return None;
        }
        let ghost doc = self.env().docs[src as int];
        let nd = match node.as_dict() {
            Some(d) => d,
            None => return None,
        };
        if let Some(names) = self.sub_array(src, nd, "Names") {
            let mut i: usize = 0;
            assert(views(names@).skip(0) =~= views(names@));
            while i < names.len() && names.len() - i >= 2
                invariant
                    i <= names@.len(),
                    depth <= MAX_NAME_TREE_DEPTH,
                    doc == self.env().docs[src as int],
                    obj_dict(node@) == Some(nd@),
                    sub_array(doc, nd@, "Names"@) == Some(views(names@)),
                    find_pair(views(names@), key@) == find_pair(views(names@).skip(i as int), key@),
                decreases names@.len() - i,
            {
                let ghost rest = views(names@).skip(i as int);
                assert(rest[0] == names@[i as int]@);
                assert(rest[1] == names@[i + 1]@);
                if let Some(s) = names[i].as_string() {
                    if bytes_eq(s, key) {
                        assert(find_pair(views(names@), key@) == Some(names@[i + 1]@));
                        return Some(&names[i + 1]);
                    }
                }
                assert(rest.skip(2) =~= views(names@).skip(i + 2));
                i += 2;
            }
        }
        if let Some(kids) = self.sub_array(src, nd, "Kids") {
            let mut i: usize = 0;
            assert(views(kids@).skip(0) =~= views(kids@));
            while i < kids.len()
                invariant
                    i <= kids@.len(),
                    depth <= MAX_NAME_TREE_DEPTH,
                    src < self.env().docs.len(),
                    doc == self.env().docs[src as int],
                    name_tree(doc, node@, key@, depth as nat) == name_tree_kids(
                        doc,
                        views(kids@),
                        key@,
                        (depth + 1) as nat,
                    ),
                    name_tree_kids(doc, views(kids@), key@, (depth + 1) as nat) == name_tree_kids(
                        doc,
                        views(kids@).skip(i as int),
                        key@,
                        (depth + 1) as nat,
                    ),
                decreases kids@.len() - i,
            {
                let ghost rest = views(kids@).skip(i as int);
                assert(rest[0] == kids@[i as int]@);
                if let Some(kid) = self.resolve(src, &kids[i]) {
                    if let Some(v) = self.name_tree_lookup(src, kid, key, depth + 1) {
                        return Some(v);
                    }
                }
                assert(rest.skip(1) =~= views(kids@).skip(i + 1));
                i += 1;
            }
        }
        None
    }

    /// A destination turned to the new page; none where its page is not kept.
    pub fn remap_dest_value(&self, src: usize, dest: &Object) -> (r: Option<Object>)
        requires
            src < self.env().docs.len(),
        ensures
            match r {
                Some(o) => remap_dest(self.env(), src as nat, dest@) == Some(o@),
                None => remap_dest(self.env(), src as nat, dest@) is None,
            },
    {
        broadcast use array_view;

        let arr = match self.dest_to_array(src, dest, 0) {
            Some(a) => a,
            None => return None,
        };
        if arr.len() == 0 {
            return None;
        }
        let page_ref = match arr[0].as_reference() {
            Some(r) => r,
            None => return None,
        };
        let new_pid = match self.page_id_map.get(src, page_ref.id) {
            Some(n) => n,
            None => return None,
        };
        let mut new_arr: Vec<Object> = Vec::new();
        new_arr.push(Object::reference(new_pid));
        let mut i: usize = 1;
        let doc: &PdfDocument = self.sources[src];
        let ghost goal = views(arr@).map_values(|o: Obj| direct(*doc, o)).update(0, new_ref(new_pid as nat));
        while i < arr.len()
            invariant
                1 <= i <= arr@.len(),
                new_arr@.len() == i,
                goal == views(arr@).map_values(|o: Obj| direct(*doc, o)).update(0, new_ref(new_pid as nat)),
                forall|j: int| 0 <= j < i ==> (#[trigger] new_arr@[j])@ == goal[j],
            decreases arr@.len() - i,
        {
            new_arr.push(direct_copy(doc, &arr[i]));
            i += 1;
        }
        assert(views(new_arr@) =~= goal);
        Some(Object::Array(new_arr))
    }

    /// An action for the output, or none where it is dropped.
    pub fn remap_action(&self, src: usize, action: &Object) -> (r: Option<Object>)
        requires
            src < self.env().docs.len(),
        ensures
            match r {
                Some(o) => remap_action(self.env(), src as nat, action@) == Some(o@),
                None => remap_action(self.env(), src as nat, action@) is None,
            },
    {
        let act = match self.resolve(src, action) {
            Some(a) => a,
            None => return None,
        };
        let ad = match act.as_dict() {
            Some(d) => d,
            None => return None,
        };
        let doc: &PdfDocument = self.sources[src];
        let mut own = ad.clone();
        let _ = own.remove("Next");
        if ad.is_name("S", "GoTo") {
            let d = match ad.get("D") {
                Some(d) => d,
                None => return None,
            };
            let new_d = match self.remap_dest_value(src, d) {
                Some(d) => d,
                None => return None,
            };
            let mut nd = direct_dict(doc, &own);
            nd.insert("D", new_d);
            Some(Object::Dictionary(nd))
        } else if ad.is_name("S", "URI") || ad.is_name("S", "Named") {
            Some(Object::Dictionary(direct_dict(doc, &own)))
        } else {
            None
        }
    }
}

} // verus!
