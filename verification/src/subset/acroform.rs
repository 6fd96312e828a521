//! The form fields whose widgets stand on kept pages.

use vstd::prelude::*;
use crate::document::PdfDocument;
use crate::object::{
    dict_get, dict_has, dict_insert, dict_ref, new_ref, obj_dict, Dict, Entries, Obj, Object, ObjectRef,
};
use super::copy::{carry, carry_below, deeper, edit, keys_of, levels, refs, refs_array};
use super::dests::catalog;
use super::resources::sub_dict;
use super::{nats, next_id, object_at, put, set_pin, with_slot, Builder, Env, State, MAX_DEPTH};

verus! {

/// The attributes of a field that are copied. Its kids and its parent are rebuilt.
pub open spec fn field_keys() -> Seq<Seq<char>> {
    seq![
        "FT"@,
        "T"@,
        "TU"@,
        "TM"@,
        "Ff"@,
        "V"@,
        "DV"@,
        "DA"@,
        "Q"@,
        "Opt"@,
        "MaxLen"@,
    ]
}

/// The attributes of the form that are copied.
pub open spec fn form_keys() -> Seq<Seq<char>> {
    seq!["DR"@, "DA"@, "Q"@, "NeedAppearances"@]
}

/// The dictionary of the object of number `id`; empty where there is none.
pub open spec fn dict_of(doc: PdfDocument, id: nat) -> Entries {
    match doc.lookup(id) {
        Some(o) => match obj_dict(o) {
            Some(d) => d,
            None => Seq::empty(),
        },
        None => Seq::empty(),
    }
}

/// What holds of a field under `key`: its own value, or that of the nearest field above it that
/// has one.
pub open spec fn inherited(
    doc: PdfDocument,
    field: Entries,
    parent: Option<nat>,
    key: Seq<char>,
    depth: nat,
) -> Option<Obj>
    decreases levels(depth),
{
    match dict_get(field, key) {
        Some(v) => Some(v),
        None => match parent {
            Some(p) => if depth < MAX_DEPTH {
                inherited(doc, dict_of(doc, p), dict_ref(dict_of(doc, p), "Parent"@), key, depth + 1)
            } else {
                None
            },
            None => None,
        },
    }
}

/// Copy a form field without its kids, and the fields above it, unless it was copied before.
pub open spec fn import_form_field(env: Env, st: State, src: nat, id: nat, depth: nat) -> (State, nat)
    decreases levels(depth),
{
    if st.fields.contains_key((src, id)) {
        (st, st.fields[(src, id)])
    } else {
        let n = next_id(st);
        let s1 = State {
            fields: st.fields.insert((src, id), n),
            ..set_pin(with_slot(st), n, true)
        };
        let fd = dict_of(env.docs[src as int], id);
        let (s2, nd) = carry(env, s1, src, fd, field_keys(), depth + 1, Seq::empty());
        match dict_ref(fd, "Parent"@) {
            Some(p) => {
                if depth < MAX_DEPTH {
                    let (s3, pf) = import_form_field(env, s2, src, p, depth + 1);
                    let s4 = State { links: s3.links.push((pf, n)), ..s3 };
                    (put(s4, n, Obj::Dictionary(dict_insert(nd, "Parent"@, new_ref(pf)))), n)
                } else {
                    (put(State { tops: s2.tops.push(n), ..s2 }, n, Obj::Dictionary(nd)), n)
                }
            },
            None => (put(State { tops: s2.tops.push(n), ..s2 }, n, Obj::Dictionary(nd)), n),
        }
    }
}

/// Enter a kept widget into the tree of fields. Gives the number of the field above it. A widget
/// without one is a field itself, where it has a field type.
pub open spec fn register_widget(
    env: Env,
    st: State,
    src: nat,
    annot: Entries,
    widget: nat,
    parent: Option<nat>,
) -> (State, Option<nat>) {
    match parent {
        Some(p) => {
            let (s1, f) = import_form_field(env, st, src, p, 0);
            (State { links: s1.links.push((f, widget)), ..s1 }, Some(f))
        },
        None => if dict_has(annot, "FT"@) {
            (State { tops: st.tops.push(widget), ..st }, None)
        } else {
            (st, None)
        },
    }
}

/// The kids of a field, in the order in which they were met.
pub open spec fn kids_of(links: Seq<(nat, nat)>, field: nat) -> Seq<nat>
    decreases links.len(),
{
    if links.len() == 0 {
        Seq::empty()
    } else if links.last().0 == field {
        kids_of(links.drop_last(), field).push(links.last().1)
    } else {
        kids_of(links.drop_last(), field)
    }
}

/// The state with the kids of the fields among the first `n` objects entered into them.
pub open spec fn attach_kids(st: State, n: nat) -> State
    decreases n,
{
    if n == 0 {
        st
    } else {
        let s = attach_kids(st, (n - 1) as nat);
        let kids = kids_of(st.links, n);
        if kids.len() == 0 {
            s
        } else {
            edit(s, n, "Kids"@, Obj::Array(refs(kids)))
        }
    }
}

/// Build the form dictionary. Gives its number, or none where no field was kept.
pub open spec fn acroform(env: Env, st: State, src: nat) -> (State, Option<nat>) {
    if st.tops.len() == 0 {
        (st, None)
    } else {
        let s1 = attach_kids(st, st.slots.len());
        let af = dict_insert(Seq::empty(), "Fields"@, Obj::Array(refs(st.tops)));
        let (s2, af2) = match catalog(env.docs[src as int]) {
            Some(cat) => match sub_dict(env.docs[src as int], cat, "AcroForm"@) {
                Some(src_af) => carry(env, s1, src, src_af, form_keys(), 1, af),
                None => (s1, af),
            },
            None => (s1, af),
        };
        let n = next_id(s2);
        (put(set_pin(with_slot(s2), n, true), n, Obj::Dictionary(af2)), Some(n))
    }
}

/// Every field whose kids were kept lists them, in the order in which they were met; nothing else
/// changes.
pub proof fn kids_listed(st: State, n: nat, f: nat)
    ensures
        object_at(attach_kids(st, n), f) == (match object_at(st, f) {
            Some(Obj::Dictionary(d)) => if f <= n && kids_of(st.links, f).len() > 0 {
                Some(Obj::Dictionary(dict_insert(d, "Kids"@, Obj::Array(refs(kids_of(st.links, f))))))
            } else {
                Some(Obj::Dictionary(d))
            },
            o => o,
        }),
    decreases n,
{
    if n > 0 {
        kids_listed(st, (n - 1) as nat, f);
        kids_listed(st, (n - 1) as nat, n);
        attach_kids_frame(st, (n - 1) as nat);
    }
}

proof fn attach_kids_frame(st: State, n: nat)
    ensures
        attach_kids(st, n).slots.len() == st.slots.len(),
        attach_kids(st, n).links == st.links,
        attach_kids(st, n).tops == st.tops,
    decreases n,
{
    if n > 0 {
        attach_kids_frame(st, (n - 1) as nat);
    }
}

/// What holds of a field under `key`, its own or inherited.
pub fn inherited_value<'b>(
    doc: &'b PdfDocument,
    field: &'b Dict,
    parent: Option<ObjectRef>,
    key: &str,
    depth: usize,
) -> (r: Option<&'b Object>)
    ensures
        ({
            let wanted = inherited(
                *doc,
                field@,
                match parent {
                    Some(p) => Some(p.id as nat),
                    None => None,
                },
                key@,
                depth as nat,
            );
            match r {
                Some(o) => wanted == Some(o@),
                None => wanted is None,
            }
        }),
    decreases levels(depth as nat),
{
    match field.get(key) {
        Some(v) => Some(v),
        None => match parent {
            Some(p) if depth < MAX_DEPTH => match doc.load_object(p) {
                Some(o) => match o.as_dict() {
                    Some(d) => inherited_value(doc, d, d.get_ref("Parent"), key, depth + 1),
                    None => {
                        assert(dict_of(*doc, p.id as nat) == Seq::<(Seq<char>, Obj)>::empty());
                        proof {
                            reveal_with_fuel(inherited, 2);
                        }
                        None
                    },
                },
                None => {
                    proof {
                        reveal_with_fuel(inherited, 2);
                    }
                    None
                },
            },
            _ => None,
        },
    }
}

impl<'a> Builder<'a> {
    /// Enter a kept widget into the tree of fields. Gives the number of the field above it.
    pub fn register_form_widget(
        &mut self,
        src: usize,
        annot: &Dict,
        widget_id: usize,
        orig_parent: Option<ObjectRef>,
    ) -> (r: Option<usize>)
        requires
            src < old(self).env().docs.len(),
        ensures
            final(self).env() == old(self).env(),
            ({
                let (s, f) = register_widget(
                    old(self).env(),
                    old(self)@,
                    src as nat,
                    annot@,
                    widget_id as nat,
                    match orig_parent {
                        Some(p) => Some(p.id as nat),
                        None => None,
                    },
                );
                &&& final(self)@ == s
                &&& match r {
                    Some(n) => f == Some(n as nat),
                    None => f is None,
                }
            }),
    {
        match orig_parent {
            Some(p) => {
                let pfid = self.import_form_field(src, p, 0);
                let ghost before = self@;
                self.field_links.push((pfid, widget_id));
                assert(self@.links =~= before.links.push((pfid as nat, widget_id as nat)));
                Some(pfid)
            },
            None => {
                if annot.contains_key("FT") {
                    self.top_fields.push(widget_id);
                    assert(self@.tops =~= old(self)@.tops.push(widget_id as nat));
                }
                None
            },
        }
    }

    /// Copy a form field without its kids, and the fields above it, unless it was copied before.
    pub fn import_form_field(&mut self, src: usize, field: ObjectRef, depth: usize) -> (id: usize)
        requires
            src < old(self).env().docs.len(),
        ensures
            final(self).env() == old(self).env(),
            (final(self)@, id as nat) == import_form_field(
                old(self).env(),
                old(self)@,
                src as nat,
                field.id as nat,
                depth as nat,
            ),
        decreases levels(depth as nat),
    {
        if let Some(n) = self.field_map.get(src, field.id) {
            return n;
        }
        let doc: &'a PdfDocument = self.sources[src];
        let new_id = self.allocate();
        self.set_pin(new_id, true);
        self.field_map.insert(src, field.id, new_id);
        let empty = Dict::new();
        let fd: &Dict = match doc.load_object(field) {
            Some(o) => match o.as_dict() {
                Some(d) => d,
                None => &empty,
            },
            None => &empty,
        };
        assert(fd@ == dict_of(self.env().docs[src as int], field.id as nat));
        let keys: [&str; 11] = [
            "FT",
            "T",
            "TU",
            "TM",
            "Ff",
            "V",
            "DV",
            "DA",
            "Q",
            "Opt",
            "MaxLen",
        ];
        assert(keys_of(keys@) =~= field_keys());
        let below = deeper(depth);
        proof {
            if depth > MAX_DEPTH {
                let none: Entries = Seq::empty();
                carry_below(
                    self.env(),
                    self@,
                    src as nat,
                    fd@,
                    field_keys(),
                    (depth + 1) as nat,
                    below as nat,
                    none,
                );
            }
        }
        let mut nd = self.carry(src, fd, &keys, below, Dict::new());
        let ghost s2 = self@;
        match fd.get_ref("Parent") {
            Some(p) if depth < MAX_DEPTH => {
                let pfid = self.import_form_field(src, p, depth + 1);
                let ghost s3 = self@;
                nd.insert("Parent", Object::reference(pfid));
                self.field_links.push((pfid, new_id));
                assert(self@.links =~= s3.links.push((pfid as nat, new_id as nat)));
            },
            _ => {
                self.top_fields.push(new_id);
                assert(self@.tops =~= s2.tops.push(new_id as nat));
            },
        }
        self.put(new_id, Object::Dictionary(nd));
        new_id
    }

    /// Build the form dictionary. Gives its number, or none where no field was kept.
    pub fn build_acroform(&mut self, src: usize) -> (r: Option<usize>)
        requires
            src < old(self).env().docs.len(),
        ensures
            final(self).env() == old(self).env(),
            final(self)@ == acroform(old(self).env(), old(self)@, src as nat).0,
            match r {
                Some(n) => acroform(old(self).env(), old(self)@, src as nat).1 == Some(n as nat),
                None => acroform(old(self).env(), old(self)@, src as nat).1 is None,
            },
    {
        if self.top_fields.len() == 0 {
            return None;
        }
        let n = self.slots.len();
        let ghost links = old(self)@.links;
        let mut kids: Vec<Vec<usize>> = Vec::new();
        let mut i: usize = 0;
        while i < n
            invariant
                i <= n,
                kids@.len() == i,
                forall|j: int| 0 <= j < i ==> (#[trigger] kids@[j])@ == Seq::<usize>::empty(),
            decreases n - i,
        {
            kids.push(Vec::new());
            i += 1;
        }
        let mut l: usize = 0;
        assert(links.take(0) =~= Seq::empty());
        assert forall|j: int| 0 <= j < n implies nats((#[trigger] kids@[j])@) == kids_of(
            links.take(0),
            (j + 1) as nat,
        ) by {
            assert(nats(kids@[j]@) =~= Seq::empty());
        }
        while l < self.field_links.len()
            invariant
                l <= self.field_links@.len(),
                *self == *old(self),
                links == self@.links,
                links.len() == self.field_links@.len(),
                kids@.len() == n,
                forall|j: int|
                    0 <= j < n ==> nats((#[trigger] kids@[j])@) == kids_of(
                        links.take(l as int),
                        (j + 1) as nat,
                    ),
            decreases self.field_links@.len() - l,
        {
            let (f, k) = self.field_links[l];
            proof {
                let t = links.take(l + 1);
                assert(t.drop_last() =~= links.take(l as int));
                assert(t.last() == (f as nat, k as nat));
            }
            let ghost before = kids@;
            if 1 <= f && f <= n {
                kids[f - 1].push(k);
                assert(kids@[f - 1]@ == before[f - 1]@.push(k));
                assert(nats(kids@[f - 1]@) =~= nats(before[f - 1]@).push(k as nat));
            }
            assert forall|j: int| 0 <= j < n implies nats((#[trigger] kids@[j])@) == kids_of(
                links.take(l + 1),
                (j + 1) as nat,
            ) by {
                if j != f - 1 {
                    assert(kids@[j] == before[j]);
                }
            }
            l += 1;
        }
        assert(links.take(l as int) =~= links);
        let mut id: usize = 0;
        while id < n
            invariant
                id <= n,
                n == old(self)@.slots.len(),
                links == old(self)@.links,
                kids@.len() == n,
                forall|j: int| 0 <= j < n ==> nats((#[trigger] kids@[j])@) == kids_of(links, (j + 1) as nat),
                self.env() == old(self).env(),
                self@ == attach_kids(old(self)@, id as nat),
            decreases n - id,
        {
            if kids[id].len() > 0 {
                let arr = refs_array(&kids[id]);
                self.edit(id + 1, "Kids", arr);
            }
            assert(nats(kids@[id as int]@).len() == kids@[id as int]@.len());
            id += 1;
        }
        proof {
            attach_kids_frame(old(self)@, n as nat);
        }
        let mut af = Dict::new();
        af.insert("Fields", refs_array(&self.top_fields));
        match self.source_catalog(src) {
            Some(cat) => match self.sub_dict(src, cat, "AcroForm") {
                Some(src_af) => {
                    let keys: [&str; 4] = ["DR", "DA", "Q", "NeedAppearances"];
                    assert(keys_of(keys@) =~= form_keys());
                    af = self.carry(src, src_af, &keys, 1, af);
                },
                None => {},
            },
            None => {},
        }
        let af_id = self.allocate();
        self.set_pin(af_id, true);
        self.put(af_id, Object::Dictionary(af));
        Some(af_id)
    }
}

} // verus!
