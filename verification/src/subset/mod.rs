//! Page subsetting and document rebuild.
//!
//! Builds a new PDF from a selection of source pages, copying only the objects that those pages
//! need. Each kept page's resources are trimmed to the names that its content uses, objects with
//! the same canonical form are collapsed to one, and what nothing reaches is not written.
//!
//! A rebuild invalidates every cryptographic signature. [`SignaturePolicy::PreserveVisual`] keeps
//! the appearance of a signature as an ordinary annotation and drops its value;
//! [`SignaturePolicy::Refuse`] gives an error that names the page. The file never holds a signature
//! dictionary, by whatever way one could be reached.

use vstd::prelude::*;
use crate::document::PdfDocument;
use crate::idmap::{IdMap, IdSet, Tally};
use crate::object::{Obj, Object};

pub mod acroform;
pub mod again;
pub mod alike;
pub mod annots;
pub mod canon;
pub mod chained;
pub mod chosen;
pub mod clean;
pub mod closed;
pub mod compact;
pub mod copy;
pub mod counted;
pub mod dedup;
pub mod defaults;
pub mod denotes;
pub mod dests;
pub mod direct;
pub mod faithful;
pub mod fields;
pub mod filed;
pub mod finish;
pub mod found;
pub mod kept;
pub mod laid;
pub mod leaves;
pub mod linked;
pub mod named;
pub mod notation;
pub mod outlines;
pub mod paged;
pub mod pages;
pub mod pruned;
pub mod reach;
pub mod rebuild;
pub mod refs;
pub mod relinked;
pub mod resources;
pub mod serialize;
pub mod single;
pub mod sound;
pub mod spared;
pub mod strays;
pub mod struct_tree;
pub mod unsigned;
pub mod usage;
pub mod whole;

verus! {

/// Greatest depth to which the object graph is followed while copying.
pub const MAX_DEPTH: usize = 256;

/// What to do when a kept page carries a digital signature.
#[derive(Debug, Clone, Copy, PartialEq, Eq, Structural)]
pub enum SignaturePolicy {
    /// Keep the appearance as a plain annotation, drop the signature, and warn.
    PreserveVisual,
    /// Refuse to subset a document whose kept pages contain a signature.
    Refuse,
}

impl Default for SignaturePolicy {
    fn default() -> (p: Self)
        ensures
            p == SignaturePolicy::PreserveVisual,
    {
        SignaturePolicy::PreserveVisual
    }
}

/// Options of a subset or rebuild.
#[derive(Debug, Clone, Copy)]
pub struct SubsetOptions {
    /// Collapse objects with the same canonical form to a single one.
    pub dedup: bool,
    /// How to handle signatures on kept pages.
    pub on_signature: SignaturePolicy,
    /// Keep links whose target is a kept page, or that leave the document.
    pub keep_links: bool,
    /// Keep the outline, pruned to the entries that lead to a kept page.
    pub keep_outlines: bool,
    /// Keep the structure tree, pruned to the kept pages.
    pub keep_struct_tree: bool,
    /// Keep the form fields that have a widget on a kept page.
    pub keep_acroform: bool,
    /// Trim the resources of the form XObjects that are used; otherwise copy such a form whole.
    pub trim_forms: bool,
}

/// The options that hold when nothing else is asked for.
pub open spec fn default_options() -> SubsetOptions {
    SubsetOptions {
        dedup: true,
        on_signature: SignaturePolicy::PreserveVisual,
        keep_links: true,
        keep_outlines: true,
        keep_struct_tree: true,
        keep_acroform: true,
        trim_forms: true,
    }
}

impl Default for SubsetOptions {
    fn default() -> (o: Self)
        ensures
            o == default_options(),
    {
        SubsetOptions {
            dedup: true,
            on_signature: SignaturePolicy::default(),
            keep_links: true,
            keep_outlines: true,
            keep_struct_tree: true,
            keep_acroform: true,
            trim_forms: true,
        }
    }
}

/// What a subset or rebuild did.
#[derive(Debug, Clone, Default)]
pub struct SubsetReport {
    /// Notes for a reader, such as that a signature was dropped.
    pub warnings: Vec<String>,
    /// Signatures whose value was dropped.
    pub dropped_signatures: usize,
    /// Objects in the output.
    pub objects_written: usize,
    /// Objects removed because another has the same canonical form.
    pub objects_deduped: usize,
    /// Outline entries kept.
    pub outline_entries: usize,
    /// Annotations that led somewhere and do not any more: the target was dropped or cannot be found,
    /// or links are not kept.
    pub links_severed: usize,
    /// Structure elements kept.
    pub struct_elements: usize,
    /// Top-level form fields kept.
    pub form_fields: usize,
}

/// What a report says.
pub struct Summary {
    pub warnings: Seq<Seq<char>>,
    pub dropped_signatures: nat,
    pub objects_written: nat,
    pub objects_deduped: nat,
    pub outline_entries: nat,
    pub links_severed: nat,
    pub struct_elements: nat,
    pub form_fields: nat,
}

impl View for SubsetReport {
    type V = Summary;

    open spec fn view(&self) -> Summary {
        Summary {
            warnings: texts(self.warnings@),
            dropped_signatures: self.dropped_signatures as nat,
            objects_written: self.objects_written as nat,
            objects_deduped: self.objects_deduped as nat,
            outline_entries: self.outline_entries as nat,
            links_severed: self.links_severed as nat,
            struct_elements: self.struct_elements as nat,
            form_fields: self.form_fields as nat,
        }
    }
}

/// What the copying reads and never changes.
pub struct Env {
    /// The source documents.
    pub docs: Seq<PdfDocument>,
    /// The options.
    pub opts: SubsetOptions,
    /// The (source, object number) of the pages that are not kept.
    pub severed: Set<(nat, nat)>,
    /// The new object number of each kept page, by (source, object number).
    pub pages: Map<(nat, nat), nat>,
}

/// A numbered place for an object of the output.
pub struct Cell {
    /// The object, once it is known.
    pub object: Option<Obj>,
    /// Is the object kept apart from others of the same canonical form?
    pub pinned: bool,
}

/// What the copying has done so far.
pub struct State {
    /// The objects; that of number `n` stands at position `n - 1`.
    pub slots: Seq<Cell>,
    /// The new number of each source object that was copied whole.
    pub ids: Map<(nat, nat), nat>,
    /// The new number of each form XObject that was copied trimmed.
    pub forms: Map<(nat, nat), nat>,
    /// The new number of each form field.
    pub fields: Map<(nat, nat), nat>,
    /// Form fields and their kids, in the order in which they were met.
    pub links: Seq<(nat, nat)>,
    /// The top-level form fields.
    pub tops: Seq<nat>,
    /// The pages, in order.
    pub page_ids: Seq<nat>,
    /// The warnings, in order.
    pub warnings: Seq<Seq<char>>,
    /// How many signatures were dropped.
    pub dropped_signatures: nat,
    /// How many links were severed.
    pub links_severed: nat,
    /// How many outline entries were kept.
    pub outline_entries: nat,
    /// How many structure elements were kept.
    pub struct_elements: nat,
}

/// The state with one place more.
pub open spec fn with_slot(st: State) -> State {
    State { slots: st.slots.push(Cell { object: None, pinned: false }), ..st }
}

/// The number that the next place gets.
pub open spec fn next_id(st: State) -> nat {
    st.slots.len() + 1
}

/// Is `id` the number of a place?
pub open spec fn has_slot(st: State, id: nat) -> bool {
    1 <= id <= st.slots.len()
}

/// The state with `o` as the object of number `id`.
pub open spec fn put(st: State, id: nat, o: Obj) -> State {
    if has_slot(st, id) {
        State {
            slots: st.slots.update(id - 1, Cell { object: Some(o), ..st.slots[id - 1] }),
            ..st
        }
    } else {
        st
    }
}

/// The state with the object of number `id` pinned or not.
pub open spec fn set_pin(st: State, id: nat, pinned: bool) -> State {
    if has_slot(st, id) {
        State { slots: st.slots.update(id - 1, Cell { pinned, ..st.slots[id - 1] }), ..st }
    } else {
        st
    }
}

/// The object of number `id`.
pub open spec fn object_at(st: State, id: nat) -> Option<Obj> {
    if has_slot(st, id) {
        st.slots[id - 1].object
    } else {
        None
    }
}

/// The state before anything was copied.
pub open spec fn empty_state() -> State {
    State {
        slots: Seq::empty(),
        ids: Map::empty(),
        forms: Map::empty(),
        fields: Map::empty(),
        links: Seq::empty(),
        tops: Seq::empty(),
        page_ids: Seq::empty(),
        warnings: Seq::empty(),
        dropped_signatures: 0,
        links_severed: 0,
        outline_entries: 0,
        struct_elements: 0,
    }
}

/// A numbered place for an object of the output.
pub struct Slot {
    pub object: Option<Object>,
    pub pinned: bool,
}

impl View for Slot {
    type V = Cell;

    open spec fn view(&self) -> Cell {
        Cell {
            object: match self.object {
                Some(o) => Some(o@),
                None => None,
            },
            pinned: self.pinned,
        }
    }
}

/// The values of object numbers.
pub open spec fn nats(s: Seq<usize>) -> Seq<nat> {
    s.map_values(|n: usize| n as nat)
}

/// The values of strings.
pub open spec fn texts(s: Seq<String>) -> Seq<Seq<char>> {
    s.map_values(|t: String| t@)
}

/// The engine that copies, trims and collapses.
pub struct Builder<'a> {
    pub sources: &'a [&'a PdfDocument],
    pub opts: SubsetOptions,
    pub severed: IdSet,
    pub page_id_map: IdMap,
    pub slots: Vec<Slot>,
    pub id_map: IdMap,
    pub form_trim_map: IdMap,
    pub field_map: IdMap,
    pub field_links: Vec<(usize, usize)>,
    pub top_fields: Vec<usize>,
    pub page_ids: Vec<usize>,
    pub warnings: Vec<String>,
    pub dropped_signatures: Tally,
    pub links_severed: Tally,
    pub outline_entries: Tally,
    pub struct_elements: Tally,
}

impl<'a> View for Builder<'a> {
    type V = State;

    open spec fn view(&self) -> State {
        State {
            slots: self.slots@.map_values(|s: Slot| s@),
            ids: self.id_map@,
            forms: self.form_trim_map@,
            fields: self.field_map@,
            links: self.field_links@.map_values(|p: (usize, usize)| (p.0 as nat, p.1 as nat)),
            tops: nats(self.top_fields@),
            page_ids: nats(self.page_ids@),
            warnings: texts(self.warnings@),
            dropped_signatures: self.dropped_signatures@,
            links_severed: self.links_severed@,
            outline_entries: self.outline_entries@,
            struct_elements: self.struct_elements@,
        }
    }
}

/// The documents behind a sequence of references to them.
pub open spec fn documents(sources: Seq<&PdfDocument>) -> Seq<PdfDocument> {
    sources.map_values(|d: &PdfDocument| *d)
}

impl<'a> Builder<'a> {
    /// What the copying reads and never changes.
    pub open spec fn env(&self) -> Env {
        Env {
            docs: documents(self.sources@),
            opts: self.opts,
            severed: self.severed@,
            pages: self.page_id_map@,
        }
    }

    pub fn new(sources: &'a [&'a PdfDocument], opts: SubsetOptions) -> (b: Self)
        ensures
            b@ == empty_state(),
            b.env() == (Env {
                docs: documents(sources@),
                opts,
                severed: Set::empty(),
                pages: Map::empty(),
            }),
    {
        let b = Builder {
            sources,
            opts,
            severed: IdSet::new(),
            page_id_map: IdMap::new(),
            slots: Vec::new(),
            id_map: IdMap::new(),
            form_trim_map: IdMap::new(),
            field_map: IdMap::new(),
            field_links: Vec::new(),
            top_fields: Vec::new(),
            page_ids: Vec::new(),
            warnings: Vec::new(),
            dropped_signatures: Tally::new(),
            links_severed: Tally::new(),
            outline_entries: Tally::new(),
            struct_elements: Tally::new(),
        };
        proof {
            let e = empty_state();
            assert(b@.slots =~= e.slots);
            assert(b@.links =~= e.links);
            assert(b@.tops =~= e.tops);
            assert(b@.page_ids =~= e.page_ids);
            assert(b@.warnings =~= e.warnings);
        }
        b
    }

    /// Make a new place and give its number.
    pub fn allocate(&mut self) -> (id: usize)
        ensures
            final(self).env() == old(self).env(),
            final(self)@ == with_slot(old(self)@),
            id == next_id(old(self)@),
    {
        self.slots.push(Slot { object: None, pinned: false });
        assert(self@.slots =~= with_slot(old(self)@).slots);
        self.slots.len()
    }

    /// Make `object` the object of number `id`.
    pub fn put(&mut self, id: usize, object: Object)
        ensures
            final(self).env() == old(self).env(),
            final(self)@ == put(old(self)@, id as nat, object@),
    {
        if 1 <= id && id <= self.slots.len() {
            let pinned = self.slots[id - 1].pinned;
            self.slots[id - 1] = Slot { object: Some(object), pinned };
        }
        assert(self@.slots =~= put(old(self)@, id as nat, object@).slots);
    }

    /// Pin the object of number `id`, or unpin it.
    pub fn set_pin(&mut self, id: usize, pinned: bool)
        ensures
            final(self).env() == old(self).env(),
            final(self)@ == set_pin(old(self)@, id as nat, pinned),
    {
        if 1 <= id && id <= self.slots.len() {
            self.slots[id - 1].pinned = pinned;
        }
        assert(self@.slots =~= set_pin(old(self)@, id as nat, pinned).slots);
    }

    /// Take the object of number `id` out of its place.
    pub fn take(&mut self, id: usize) -> (r: Option<Object>)
        requires
            1 <= id <= old(self).slots@.len(),
        ensures
            final(self).env() == old(self).env(),
            match r {
                Some(o) => object_at(old(self)@, id as nat) == Some(o@),
                None => object_at(old(self)@, id as nat) is None,
            },
            final(self)@ == (State {
                slots: old(self)@.slots.update(
                    id - 1,
                    Cell { object: None, ..old(self)@.slots[id - 1] },
                ),
                ..old(self)@
            }),
    {
        let mut taken: Slot = Slot { object: None, pinned: self.slots[id - 1].pinned };
        std::mem::swap(&mut taken, &mut self.slots[id - 1]);
        assert(self@.slots =~= old(self)@.slots.update(
            id - 1,
            Cell { object: None, ..old(self)@.slots[id - 1] },
        ));
        taken.object
    }
}

} // verus!
