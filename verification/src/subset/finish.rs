//! The page tree, the catalog, and the complete file.

use vstd::prelude::*;
use crate::object::{dict_insert, dict_ref, dict_remove, new_ref, obj_dict, Dict, Entries, Obj, Object};
use super::acroform::acroform;
use super::compact::{compacted, rank_table};
use super::copy::{carry, edit, import, keys_of, refs, refs_array};
use super::dedup::{dedup_slots, live, live_count};
use super::dests::catalog;
use super::faithful::is_page;
use super::outlines::outlines;
use super::reach::sweep;
use super::refs::renumbered;
use super::serialize::{pdf_bytes, serialize_pdf};
use super::strays::{tidy_cells, tidy_count};
use super::struct_tree::struct_tree;
use super::unsigned::{unsigned_cells, unsigned_count};
use super::{nats, next_id, object_at, put, set_pin, with_slot, Builder, Cell, Env, State, SubsetReport, Summary};

verus! {

/// What of the catalog is copied as it is.
pub open spec fn extra_keys() -> Seq<Seq<char>> {
    seq!["OCProperties"@, "Lang"@, "Metadata"@, "ViewerPreferences"@]
}

/// The numbers of the structures that belong to the document as a whole.
pub struct Parts {
    /// The outline.
    pub outlines: Option<nat>,
    /// The structure tree.
    pub tree: Option<nat>,
    /// The form.
    pub form: Option<nat>,
    /// A dictionary that holds, until the catalog is built, what of the source's catalog is copied
    /// and a reference to the document information.
    pub extras: nat,
}

/// Copy the document information of a source. A page is none.
pub open spec fn import_info(env: Env, st: State, src: nat) -> (State, Option<nat>) {
    match obj_dict(env.docs[src as int].root()) {
        Some(t) => match dict_ref(t, "Info"@) {
            Some(id) => if is_page(env, (src, id)) {
                (st, None)
            } else {
                let (s, n) = import(env, st, src, id, 0);
                (s, Some(n))
            },
            None => (st, None),
        },
        None => (st, None),
    }
}

/// Copy what of the catalog is copied as it is.
pub open spec fn gather_extras(env: Env, st: State, info: Option<nat>) -> (State, nat) {
    let (s1, d) = match catalog(env.docs[0]) {
        Some(cat) => carry(env, st, 0, cat, extra_keys(), 1, Seq::empty()),
        None => (st, Seq::empty()),
    };
    let d1 = match info {
        Some(i) => dict_insert(d, "Info"@, new_ref(i)),
        None => d,
    };
    let n = next_id(s1);
    (put(set_pin(with_slot(s1), n, true), n, Obj::Dictionary(d1)), n)
}

/// Copy the structures that belong to the document as a whole. They come from the first source.
pub open spec fn gather(env: Env, st: State) -> (State, Parts) {
    let (s1, info) = import_info(env, st, 0);
    let (s2, outlines) = if env.opts.keep_outlines {
        outlines(env, s1, 0)
    } else {
        (s1, None)
    };
    let (s3, tree) = if env.opts.keep_struct_tree {
        struct_tree(env, s2, 0)
    } else {
        (s2, None)
    };
    let (s4, form) = if env.opts.keep_acroform {
        acroform(env, s3, 0)
    } else {
        (s3, None)
    };
    let (s5, extras) = gather_extras(env, s4, info);
    (s5, Parts { outlines, tree, form, extras })
}

/// The places without signature dictionaries, without pages other than those that were built, and
/// without the lengths that streams state.
pub open spec fn tidied(st: State) -> Seq<Cell> {
    tidy_cells(unsigned_cells(st.slots), st.page_ids)
}

/// The state without what must not be written, and with equal objects collapsed where that is asked
/// for.
pub open spec fn reduce(env: Env, st: State) -> State {
    let slots = tidied(st);
    if env.opts.dedup {
        State { slots: dedup_slots(slots), ..st }
    } else {
        State { slots, ..st }
    }
}

/// The dictionary of number `id`; empty where there is none.
pub open spec fn held(st: State, id: nat) -> Entries {
    match object_at(st, id) {
        Some(Obj::Dictionary(d)) => d,
        _ => Seq::empty(),
    }
}

/// The state without the object of number `id`.
pub open spec fn without(st: State, id: nat) -> State {
    if 1 <= id <= st.slots.len() {
        State {
            slots: st.slots.update(id - 1, Cell { object: None, ..st.slots[id - 1] }),
            ..st
        }
    } else {
        st
    }
}

/// The state with the page tree entered into the first `k` pages.
pub open spec fn set_parents(st: State, page_ids: Seq<nat>, k: nat, pages: nat) -> State
    decreases k,
{
    if k == 0 {
        st
    } else {
        edit(set_parents(st, page_ids, (k - 1) as nat, pages), page_ids[k - 1], "Parent"@, new_ref(pages))
    }
}

/// The page tree: one node over all pages.
pub open spec fn pages_dict(page_ids: Seq<nat>) -> Entries {
    dict_insert(
        dict_insert(
            dict_insert(Seq::empty(), "Type"@, Obj::Name("Pages"@)),
            "Count"@,
            Obj::Integer(page_ids.len() as i64),
        ),
        "Kids"@,
        Obj::Array(refs(page_ids)),
    )
}

/// `d` with a reference under `key`, where there is something to refer to.
pub open spec fn with_ref(d: Entries, key: Seq<char>, id: Option<nat>) -> Entries {
    match id {
        Some(n) => dict_insert(d, key, new_ref(n)),
        None => d,
    }
}

/// The catalog.
pub open spec fn catalog_dict(extras: Entries, pages: nat, parts: Parts) -> Entries {
    let d0 = dict_insert(dict_remove(extras, "Info"@), "Type"@, Obj::Name("Catalog"@));
    let d1 = dict_insert(d0, "Pages"@, new_ref(pages));
    let d2 = with_ref(d1, "Outlines"@, parts.outlines);
    let d3 = with_ref(d2, "StructTreeRoot"@, parts.tree);
    let d4 = if parts.tree is Some {
        dict_insert(
            d3,
            "MarkInfo"@,
            Obj::Dictionary(dict_insert(Seq::empty(), "Marked"@, Obj::Boolean(true))),
        )
    } else {
        d3
    };
    with_ref(d4, "AcroForm"@, parts.form)
}

/// Build the page tree and the catalog. Gives the number of the catalog and that of the document
/// information.
pub open spec fn assemble(st: State, parts: Parts) -> (State, nat, Option<nat>) {
    let extras = held(st, parts.extras);
    let s1 = without(st, parts.extras);
    let pages = next_id(s1);
    let s2 = with_slot(s1);
    let cat = next_id(s2);
    let s3 = with_slot(s2);
    let s4 = set_parents(s3, st.page_ids, st.page_ids.len(), pages);
    let s5 = put(s4, pages, Obj::Dictionary(pages_dict(st.page_ids)));
    let s6 = put(s5, cat, Obj::Dictionary(catalog_dict(extras, pages, parts)));
    (s6, cat, dict_ref(extras, "Info"@))
}

/// The objects from which all others must be reached.
pub open spec fn roots(cat: nat, info: Option<nat>) -> Seq<nat> {
    match info {
        Some(i) => seq![cat, i],
        None => seq![cat],
    }
}

/// The new number of the document information, where there is such an object.
pub open spec fn info_number(slots: Seq<Cell>, info: Option<nat>) -> Option<nat> {
    match info {
        Some(i) => if live(slots, i) {
            Some(rank_table(slots)[i - 1])
        } else {
            None
        },
        None => None,
    }
}

/// The file that holds what can be reached.
pub open spec fn output(all: Seq<Cell>, cat: nat, info: Option<nat>) -> Seq<u8> {
    let slots = sweep(all, roots(cat, info));
    pdf_bytes(compacted(slots), renumbered(rank_table(slots), cat), info_number(slots, info))
}

/// The report on what was done: `st` is the state before equal objects were collapsed.
pub open spec fn summary(st: State, form: Option<nat>, written: nat, deduped: nat) -> Summary {
    Summary {
        warnings: st.warnings,
        dropped_signatures: st.dropped_signatures,
        objects_written: written,
        objects_deduped: deduped,
        outline_entries: st.outline_entries,
        links_severed: st.links_severed,
        struct_elements: st.struct_elements,
        form_fields: if form is Some {
            st.tops.len()
        } else {
            0
        },
    }
}

/// Drop signatures, collapse, build the page tree and the catalog, and write: the file and the report.
pub open spec fn conclude(env: Env, st: State, parts: Parts) -> (Seq<u8>, Summary) {
    let s1 = reduce(env, st);
    let (s2, cat, info) = assemble(s1, parts);
    (
        output(s2.slots, cat, info),
        summary(
            st,
            parts.form,
            compacted(sweep(s2.slots, roots(cat, info))).len(),
            (live_count(st.slots) - live_count(s1.slots)) as nat,
        ),
    )
}

/// Everything after the pages were built: the file and the report.
pub open spec fn finish(env: Env, st: State) -> (Seq<u8>, Summary) {
    let (s1, parts) = gather(env, st);
    conclude(env, s1, parts)
}

/// The numbers of the structures that belong to the document as a whole.
pub struct PartIds {
    pub outlines: Option<usize>,
    pub tree: Option<usize>,
    pub form: Option<usize>,
    pub extras: usize,
}

/// The value of an optional number.
pub open spec fn opt_nat(n: Option<usize>) -> Option<nat> {
    match n {
        Some(n) => Some(n as nat),
        None => None,
    }
}

impl View for PartIds {
    type V = Parts;

    open spec fn view(&self) -> Parts {
        Parts {
            outlines: opt_nat(self.outlines),
            tree: opt_nat(self.tree),
            form: opt_nat(self.form),
            extras: self.extras as nat,
        }
    }
}

fn insert_ref(d: &mut Dict, key: &str, id: Option<usize>)
    ensures
        final(d)@ == with_ref(old(d)@, key@, opt_nat(id)),
{
    if let Some(n) = id {
        d.insert(key, Object::reference(n));
    }
}

fn build_catalog_dict(extras: Dict, pages_id: usize, parts: &PartIds) -> (d: Dict)
    ensures
        d@ == catalog_dict(extras@, pages_id as nat, parts@),
{
    let mut d = extras;
    let _ = d.remove("Info");
    d.insert("Type", Object::name("Catalog"));
    d.insert("Pages", Object::reference(pages_id));
    insert_ref(&mut d, "Outlines", parts.outlines);
    insert_ref(&mut d, "StructTreeRoot", parts.tree);
    if parts.tree.is_some() {
        let mut mark = Dict::new();
        mark.insert("Marked", Object::Boolean(true));
        d.insert("MarkInfo", Object::Dictionary(mark));
    }
    insert_ref(&mut d, "AcroForm", parts.form);
    d
}

fn build_pages_dict(page_ids: &Vec<usize>) -> (d: Dict)
    ensures
        d@ == pages_dict(nats(page_ids@)),
{
    let mut d = Dict::new();
    d.insert("Type", Object::name("Pages"));
    d.insert("Count", Object::Integer(page_ids.len() as i64));
    d.insert("Kids", refs_array(page_ids));
    d
}

impl<'a> Builder<'a> {
    /// Copy the document information of a source.
    pub fn import_info(&mut self, src: usize) -> (r: Option<usize>)
        requires
            src < old(self).env().docs.len(),
        ensures
            final(self).env() == old(self).env(),
            (final(self)@, opt_nat(r)) == import_info(old(self).env(), old(self)@, src as nat),
    {
        let doc = self.sources[src];
        match doc.trailer().as_dict() {
            Some(t) => match t.get_ref("Info") {
                Some(r) => {
                    if self.page_id_map.get(src, r.id).is_some() || self.severed.contains(src, r.id) {
                        return None;
                    }
                    Some(self.import(src, r, 0))
                },
                None => None,
            },
            None => None,
        }
    }

    fn gather_extras(&mut self, info: Option<usize>) -> (id: usize)
        requires
            old(self).env().docs.len() > 0,
        ensures
            final(self).env() == old(self).env(),
            (final(self)@, id as nat) == gather_extras(old(self).env(), old(self)@, opt_nat(info)),
    {
        let mut d = Dict::new();
        if let Some(cat) = self.source_catalog(0) {
            let keys: [&str; 4] = ["OCProperties", "Lang", "Metadata", "ViewerPreferences"];
            assert(keys_of(keys@) =~= extra_keys());
            d = self.carry(0, cat, &keys, 1, d);
        }
        insert_ref(&mut d, "Info", info);
        let id = self.allocate();
        self.set_pin(id, true);
        self.put(id, Object::Dictionary(d));
        id
    }

    fn gather(&mut self) -> (parts: PartIds)
        requires
            old(self).env().docs.len() > 0,
        ensures
            final(self).env() == old(self).env(),
            (final(self)@, parts@) == gather(old(self).env(), old(self)@),
    {
        let info = self.import_info(0);
        let outlines = if self.opts.keep_outlines {
            self.build_outlines(0)
        } else {
            None
        };
        let tree = if self.opts.keep_struct_tree {
            self.build_struct_tree(0)
        } else {
            None
        };
        let form = if self.opts.keep_acroform {
            self.build_acroform(0)
        } else {
            None
        };
        let extras = self.gather_extras(info);
        PartIds { outlines, tree, form, extras }
    }

    /// Take the dictionary of number `id` out of its place.
    fn take_held(&mut self, id: usize) -> (d: Dict)
        ensures
            final(self).env() == old(self).env(),
            final(self)@ == without(old(self)@, id as nat),
            d@ == held(old(self)@, id as nat),
    {
        if 1 <= id && id <= self.slots.len() {
            match self.take(id) {
                Some(Object::Dictionary(d)) => d,
                _ => Dict::new(),
            }
        } else {
            Dict::new()
        }
    }

    /// Build the page tree and the catalog.
    fn assemble(&mut self, parts: &PartIds) -> (r: (usize, Option<usize>))
        ensures
            final(self).env() == old(self).env(),
            (final(self)@, r.0 as nat, opt_nat(r.1)) == assemble(old(self)@, parts@),
    {
        let extras = self.take_held(parts.extras);
        let info = match extras.get_ref("Info") {
            Some(r) => Some(r.id),
            None => None,
        };
        let pages_id = self.allocate();
        let catalog_id = self.allocate();
        let ghost s3 = self@;
        let page_ids: Vec<usize> = self.page_ids.clone();
        let ghost ids = old(self)@.page_ids;
        assert(nats(page_ids@) =~= ids);
        let mut k: usize = 0;
        while k < page_ids.len()
            invariant
                k <= page_ids@.len(),
                ids == nats(page_ids@),
                self.env() == old(self).env(),
                self@ == set_parents(s3, ids, k as nat, pages_id as nat),
            decreases page_ids@.len() - k,
        {
            self.edit(page_ids[k], "Parent", Object::reference(pages_id));
            k += 1;
        }
        self.put(pages_id, Object::Dictionary(build_pages_dict(&page_ids)));
        let cat = build_catalog_dict(extras, pages_id, parts);
        self.put(catalog_id, Object::Dictionary(cat));
        (catalog_id, info)
    }

    /// Write out what can be reached. Gives the file and the number of objects in it.
    fn write_out(&mut self, catalog_id: usize, info: Option<usize>) -> (r: (Vec<u8>, usize))
        ensures
            final(self)@ == (State { slots: final(self)@.slots, ..old(self)@ }),
            r.0@ == output(old(self)@.slots, catalog_id as nat, opt_nat(info)),
            r.1 == compacted(
                sweep(old(self)@.slots, roots(catalog_id as nat, opt_nat(info))),
            ).len(),
    {
        let mut starts: Vec<usize> = Vec::new();
        starts.push(catalog_id);
        if let Some(i) = info {
            starts.push(i);
        }
        assert(nats(starts@) =~= roots(catalog_id as nat, opt_nat(info)));
        self.sweep(&starts);
        let ghost slots = self@.slots;
        let (objects, table) = self.compact();
        assert(nats(table@).len() == table@.len());
        let root = if 1 <= catalog_id && catalog_id <= table.len() && table[catalog_id - 1] != 0 {
            table[catalog_id - 1]
        } else {
            catalog_id
        };
        proof {
            if 1 <= catalog_id <= table@.len() {
                assert(nats(table@)[catalog_id - 1] == table@[catalog_id - 1]);
            }
        }
        assert(root == renumbered(rank_table(slots), catalog_id as nat));
        let info_id = match info {
            Some(i) => {
                if 1 <= i && i <= table.len() && table[i - 1] != 0 {
                    Some(table[i - 1])
                } else {
                    None
                }
            },
            None => None,
        };
        proof {
            if let Some(i) = info {
                if 1 <= i <= table@.len() {
                    assert(nats(table@)[i - 1] == table@[i - 1]);
                    if live(slots, i as nat) {
                        super::compact::object_under_new_number(slots, i as nat);
                    }
                }
            }
        }
        assert(opt_nat(info_id) == info_number(slots, opt_nat(info)));
        let bytes = serialize_pdf(&objects, root, info_id);
        assert(crate::object::views(objects@).len() == objects@.len());
        (bytes, objects.len())
    }

    /// Make the report, which takes the warnings out.
    fn report(&mut self, form: Option<usize>, objects_written: usize, objects_deduped: usize) -> (r:
        SubsetReport)
        ensures
            r@ == summary(old(self)@, opt_nat(form), objects_written as nat, objects_deduped as nat),
    {
        let mut warnings: Vec<String> = Vec::new();
        std::mem::swap(&mut warnings, &mut self.warnings);
        assert(old(self)@.tops.len() == old(self).top_fields@.len());
        SubsetReport {
            warnings,
            dropped_signatures: self.dropped_signatures.count(),
            objects_written,
            objects_deduped,
            outline_entries: self.outline_entries.count(),
            links_severed: self.links_severed.count(),
            struct_elements: self.struct_elements.count(),
            form_fields: if form.is_some() {
                self.top_fields.len()
            } else {
                0
            },
        }
    }

    fn conclude(&mut self, parts: &PartIds) -> (r: (Vec<u8>, SubsetReport))
        ensures
            (r.0@, r.1@) == conclude(old(self).env(), old(self)@, parts@),
    {
        let ghost st = self@;
        self.drop_signatures();
        self.drop_strays();
        proof {
            unsigned_count(st.slots);
            tidy_count(unsigned_cells(st.slots), st.page_ids);
        }
        let objects_deduped: usize = if self.opts.dedup {
            self.dedup()
        } else {
            0
        };
        let ghost s1 = self@;
        let (catalog_id, info) = self.assemble(parts);
        let ghost s2 = self@;
        proof {
            assemble_frame(s1, parts@);
        }
        let (bytes, objects_written) = self.write_out(catalog_id, info);
        let report = self.report(parts.form, objects_written, objects_deduped);
        (bytes, report)
    }

    /// Build everything but the pages, which are built, and write the file.
    pub fn finish(self) -> (r: (Vec<u8>, SubsetReport))
        requires
            self.env().docs.len() > 0,
        ensures
            (r.0@, r.1@) == finish(self.env(), self@),
    {
        let mut b = self;
        let parts = b.gather();
        b.conclude(&parts)
    }
}

/// Building the page tree and the catalog changes nothing that is reported.
proof fn assemble_frame(st: State, parts: Parts)
    ensures
        ({
            let s = assemble(st, parts).0;
            s == (State { slots: s.slots, ..st })
        }),
{
    let s1 = without(st, parts.extras);
    let s3 = with_slot(with_slot(s1));
    set_parents_frame(s3, st.page_ids, st.page_ids.len(), next_id(s1));
}

proof fn set_parents_frame(st: State, page_ids: Seq<nat>, k: nat, pages: nat)
    ensures
        ({
            let s = set_parents(st, page_ids, k, pages);
            s == (State { slots: s.slots, ..st })
        }),
    decreases k,
{
    if k > 0 {
        set_parents_frame(st, page_ids, (k - 1) as nat, pages);
    }
}

} // verus!
