//! Building a new file from chosen pages of one or more documents.

use vstd::prelude::*;
use crate::document::{Error, Failure, PdfDocument};
use crate::idmap::{IdMap, IdSet};
use crate::object::obj_dict;
use crate::text::{decimal_text, numbered};
use super::finish::finish;
use super::leaves::{all_page_leaf_ids, leaves};
use super::pages::{build_page, page_annots, page_refused_iff, signed};
use super::{
    default_options, documents, empty_state, nats, Builder, Cell, Env, SignaturePolicy, State, SubsetOptions,
    SubsetReport, Summary,
};

verus! {

/// Chosen pages: the source and the position of the page in it.
pub type Picks = Seq<(nat, nat)>;

/// The values of chosen pages.
pub open spec fn picks_of(picks: Seq<(usize, usize)>) -> Picks {
    picks.map_values(|p: (usize, usize)| (p.0 as nat, p.1 as nat))
}

/// Is `id` the object of a page of source `src` among its first `k` that is not chosen?
pub open spec fn dropped_page(docs: Seq<PdfDocument>, picks: Picks, src: nat, id: nat, k: nat) -> bool {
    exists|p: int|
        0 <= p < k && (#[trigger] leaves(docs[src as int])[p]) == id && !picks.contains((src, p as nat))
}

/// The pages of all sources that are not chosen.
pub open spec fn severed_pages(docs: Seq<PdfDocument>, picks: Picks) -> Set<(nat, nat)> {
    Set::new(
        |key: (nat, nat)|
            key.0 < docs.len() && dropped_page(docs, picks, key.0, key.1, leaves(docs[key.0 as int]).len()),
    )
}

/// The new number of each of the first `k` chosen pages, by its source and object number. Of a page
/// that is chosen more than once it is that of the last.
pub open spec fn page_numbers(docs: Seq<PdfDocument>, picks: Picks, k: nat) -> Map<(nat, nat), nat>
    decreases k,
{
    if k == 0 {
        Map::empty()
    } else {
        let before = page_numbers(docs, picks, (k - 1) as nat);
        let (src, page) = picks[k - 1];
        if page < leaves(docs[src as int]).len() {
            before.insert((src, leaves(docs[src as int])[page as int]), k)
        } else {
            before
        }
    }
}

/// The state with a place for each of `k` pages, from one on.
pub open spec fn planned(k: nat) -> State {
    State { slots: Seq::new(k, |i: int| Cell { object: None, pinned: true }), ..empty_state() }
}

/// The first of the chosen pages from position `from` on whose source there is not.
pub open spec fn bad_source(sources: nat, picks: Picks, from: nat) -> Option<nat>
    decreases picks.len() - from,
{
    if from >= picks.len() {
        None
    } else if picks[from as int].0 >= sources {
        Some(picks[from as int].0)
    } else {
        bad_source(sources, picks, from + 1)
    }
}

/// What the copying reads.
pub open spec fn plan(docs: Seq<PdfDocument>, picks: Picks, opts: SubsetOptions) -> Env {
    Env {
        docs,
        opts,
        severed: severed_pages(docs, picks),
        pages: page_numbers(docs, picks, picks.len()),
    }
}

/// Build the chosen pages from position `k` on.
pub open spec fn build_pages(env: Env, st: State, picks: Picks, k: nat) -> Result<State, Failure>
    decreases picks.len() - k,
{
    if k >= picks.len() {
        Ok(st)
    } else {
        match build_page(env, st, picks[k as int].0, picks[k as int].1, k + 1) {
            Ok(s) => build_pages(env, s, picks, k + 1),
            Err(e) => Err(e),
        }
    }
}

/// The file and the report for the chosen pages, or why they cannot be had.
pub open spec fn subset(docs: Seq<PdfDocument>, picks: Picks, opts: SubsetOptions) -> Result<
    (Seq<u8>, Summary),
    Failure,
> {
    if picks.len() == 0 {
        Err(Failure::InvalidPdf("no pages selected"@))
    } else {
        match bad_source(docs.len(), picks, 0) {
            Some(src) => Err(
                Failure::InvalidPdf("source index "@ + decimal_text(src) + " out of range"@),
            ),
            None => {
                let env = plan(docs, picks, opts);
                match build_pages(env, planned(picks.len()), picks, 0) {
                    Ok(s) => Ok(finish(env, s)),
                    Err(e) => Err(e),
                }
            },
        }
    }
}

/// Can the page not be built: is it not there, is it no dictionary, or does it carry a signature
/// where those are refused?
pub open spec fn page_fails(env: Env, src: nat, page: nat) -> bool {
    let doc = env.docs[src as int];
    ||| page >= doc.page_seq().len()
    ||| obj_dict(doc.page_seq()[page as int].object@) is None
    ||| env.opts.on_signature == SignaturePolicy::Refuse && exists|i: int|
        0 <= i < page_annots(doc, page).len() && signed(env, src, #[trigger] page_annots(doc, page)[i])
}

proof fn pages_fail_iff(env: Env, st: State, picks: Picks, k: nat)
    ensures
        build_pages(env, st, picks, k) is Err <==> exists|j: int|
            k <= j < picks.len() && page_fails(env, (#[trigger] picks[j]).0, picks[j].1),
    decreases picks.len() - k,
{
    if k < picks.len() {
        let (src, page) = picks[k as int];
        let built = build_page(env, st, src, page, k + 1);
        assert(built is Err <==> page_fails(env, src, page)) by {
            if page < env.docs[src as int].page_seq().len() {
                page_refused_iff(env, st, src, page, k + 1);
            }
        }
        if let Ok(s) = built {
            pages_fail_iff(env, s, picks, k + 1);
        }
    }
}

proof fn bad_source_iff(sources: nat, picks: Picks, from: nat)
    ensures
        bad_source(sources, picks, from) is Some <==> exists|j: int|
            from <= j < picks.len() && (#[trigger] picks[j]).0 >= sources,
    decreases picks.len() - from,
{
    if from < picks.len() {
        bad_source_iff(sources, picks, from + 1);
        assert(picks[from as int].0 >= sources || !(picks[from as int].0 >= sources));
    }
}

/// A subset fails exactly where no page is chosen, a source or a page is not there, a page is no
/// dictionary, or a page carries a signature and the policy is to refuse those.
pub proof fn subset_fails_iff(docs: Seq<PdfDocument>, picks: Picks, opts: SubsetOptions)
    ensures
        subset(docs, picks, opts) is Err <==> {
            ||| picks.len() == 0
            ||| exists|j: int| 0 <= j < picks.len() && (#[trigger] picks[j]).0 >= docs.len()
            ||| exists|j: int|
                0 <= j < picks.len() && page_fails(
                    plan(docs, picks, opts),
                    (#[trigger] picks[j]).0,
                    picks[j].1,
                )
        },
{
    bad_source_iff(docs.len(), picks, 0);
    pages_fail_iff(plan(docs, picks, opts), planned(picks.len()), picks, 0);
}

fn picked_set(picks: &[(usize, usize)]) -> (s: IdSet)
    ensures
        forall|key: (nat, nat)| #[trigger] s@.contains(key) <==> picks_of(picks@).contains(key),
{
    let mut s = IdSet::new();
    let ghost all = picks_of(picks@);
    let mut i: usize = 0;
    while i < picks.len()
        invariant
            i <= picks@.len(),
            all == picks_of(picks@),
            forall|key: (nat, nat)|
                #[trigger] s@.contains(key) <==> exists|j: int| 0 <= j < i && #[trigger] all[j] == key,
        decreases picks@.len() - i,
    {
        let (src, page) = picks[i];
        let ghost before = s@;
        s.insert(src, page);
        assert(all[i as int] == (src as nat, page as nat));
        assert forall|key: (nat, nat)|
            #[trigger] s@.contains(key) <==> exists|j: int| 0 <= j < i + 1 && #[trigger] all[j] == key by {
            if before.contains(key) {
                let j = choose|j: int| 0 <= j < i && #[trigger] all[j] == key;
                assert(0 <= j < i + 1 && all[j] == key);
            }
            if exists|j: int| 0 <= j < i + 1 && #[trigger] all[j] == key {
                let j = choose|j: int| 0 <= j < i + 1 && #[trigger] all[j] == key;
                if j < i {
                    assert(before.contains(key));
                }
            }
        }
        i += 1;
    }
    s
}

/// Enter the pages of source `src` that are not chosen.
fn sever_source(
    docs: Ghost<Seq<PdfDocument>>,
    picks: Ghost<Picks>,
    severed: &mut IdSet,
    src: usize,
    leaf_ids: &Vec<usize>,
    picked: &IdSet,
)
    requires
        nats(leaf_ids@) == leaves(docs@[src as int]),
        forall|key: (nat, nat)| #[trigger] picked@.contains(key) <==> picks@.contains(key),
    ensures
        forall|key: (nat, nat)|
            #[trigger] final(severed)@.contains(key) <==> old(severed)@.contains(key) || (key.0 == src
                && dropped_page(docs@, picks@, key.0, key.1, leaf_ids@.len())),
{
    let mut p: usize = 0;
    let ghost all = leaves(docs@[src as int]);
    while p < leaf_ids.len()
        invariant
            p <= leaf_ids@.len(),
            all == leaves(docs@[src as int]),
            nats(leaf_ids@) == all,
            forall|key: (nat, nat)| #[trigger] picked@.contains(key) <==> picks@.contains(key),
            forall|key: (nat, nat)|
                #[trigger] severed@.contains(key) <==> old(severed)@.contains(key) || (key.0 == src
                    && dropped_page(docs@, picks@, key.0, key.1, p as nat)),
        decreases leaf_ids@.len() - p,
    {
        let ghost before = severed@;
        assert(all[p as int] == leaf_ids@[p as int]);
        if !picked.contains(src, p) {
            severed.insert(src, leaf_ids[p]);
        }
        assert forall|key: (nat, nat)|
            #[trigger] severed@.contains(key) <==> old(severed)@.contains(key) || (key.0 == src && dropped_page(
                docs@,
                picks@,
                key.0,
                key.1,
                (p + 1) as nat,
            )) by {
            let (s, id) = key;
            if s == src {
                if dropped_page(docs@, picks@, s, id, p as nat) {
                    let q = choose|q: int|
                        0 <= q < p && (#[trigger] leaves(docs@[s as int])[q]) == id && !picks@.contains(
                            (s, q as nat),
                        );
                    assert(0 <= q < p + 1 && leaves(docs@[s as int])[q] == id);
                }
                if dropped_page(docs@, picks@, s, id, (p + 1) as nat) {
                    let q = choose|q: int|
                        0 <= q < p + 1 && (#[trigger] leaves(docs@[s as int])[q]) == id && !picks@.contains(
                            (s, q as nat),
                        );
                    if q < p {
                        assert(dropped_page(docs@, picks@, s, id, p as nat));
                    } else {
                        assert(id == leaf_ids@[p as int]);
                        assert(!picked@.contains((src as nat, p as nat)));
                    }
                }
                if id == leaf_ids@[p as int] && !picks@.contains((s, p as nat)) {
                    assert(leaves(docs@[s as int])[p as int] == id);
                }
            }
            assert(before.contains(key) <==> old(severed)@.contains(key) || (key.0 == src && dropped_page(
                docs@,
                picks@,
                key.0,
                key.1,
                p as nat,
            )));
        }
        p += 1;
    }
}

/// The numbers of the page objects of each source.
fn all_leaves(sources: &[&PdfDocument]) -> (r: Vec<Vec<usize>>)
    ensures
        r@.len() == sources@.len(),
        forall|s: int|
            0 <= s < r@.len() ==> nats((#[trigger] r@[s])@) == leaves(documents(sources@)[s]),
{
    let mut out: Vec<Vec<usize>> = Vec::new();
    let mut s: usize = 0;
    while s < sources.len()
        invariant
            s <= sources@.len(),
            out@.len() == s,
            forall|j: int|
                0 <= j < s ==> nats((#[trigger] out@[j])@) == leaves(documents(sources@)[j]),
        decreases sources@.len() - s,
    {
        out.push(all_page_leaf_ids(sources[s]));
        s += 1;
    }
    out
}

fn build_severed(sources: &[&PdfDocument], leaf_ids: &Vec<Vec<usize>>, picks: &[(usize, usize)]) -> (r: IdSet)
    requires
        leaf_ids@.len() == sources@.len(),
        forall|s: int|
            0 <= s < leaf_ids@.len() ==> nats((#[trigger] leaf_ids@[s])@) == leaves(
                documents(sources@)[s],
            ),
    ensures
        r@ == severed_pages(documents(sources@), picks_of(picks@)),
{
    let picked = picked_set(picks);
    let ghost docs = documents(sources@);
    let ghost all = picks_of(picks@);
    let mut severed = IdSet::new();
    let mut s: usize = 0;
    while s < leaf_ids.len()
        invariant
            s <= leaf_ids@.len(),
            docs == documents(sources@),
            docs.len() == leaf_ids@.len(),
            all == picks_of(picks@),
            forall|j: int| 0 <= j < leaf_ids@.len() ==> nats((#[trigger] leaf_ids@[j])@) == leaves(docs[j]),
            forall|key: (nat, nat)| #[trigger] picked@.contains(key) <==> all.contains(key),
            forall|key: (nat, nat)|
                #[trigger] severed@.contains(key) <==> key.0 < s && dropped_page(
                    docs,
                    all,
                    key.0,
                    key.1,
                    leaves(docs[key.0 as int]).len(),
                ),
        decreases leaf_ids@.len() - s,
    {
        assert(nats(leaf_ids@[s as int]@).len() == leaf_ids@[s as int]@.len());
        sever_source(Ghost(docs), Ghost(all), &mut severed, s, &leaf_ids[s], &picked);
        s += 1;
    }
    assert(severed@ =~= severed_pages(docs, all));
    severed
}

/// The new number of each chosen page, by its source and object number.
fn build_page_numbers(sources: &[&PdfDocument], leaf_ids: &Vec<Vec<usize>>, picks: &[(usize, usize)]) -> (r:
    IdMap)
    requires
        leaf_ids@.len() == sources@.len(),
        forall|s: int|
            0 <= s < leaf_ids@.len() ==> nats((#[trigger] leaf_ids@[s])@) == leaves(
                documents(sources@)[s],
            ),
        forall|i: int| 0 <= i < picks@.len() ==> (#[trigger] picks@[i]).0 < sources@.len(),
    ensures
        r@ == page_numbers(documents(sources@), picks_of(picks@), picks@.len()),
{
    let ghost docs = documents(sources@);
    let ghost all = picks_of(picks@);
    let mut map = IdMap::new();
    let mut i: usize = 0;
    while i < picks.len()
        invariant
            i <= picks@.len(),
            docs == documents(sources@),
            all == picks_of(picks@),
            leaf_ids@.len() == sources@.len(),
            forall|s: int| 0 <= s < leaf_ids@.len() ==> nats((#[trigger] leaf_ids@[s])@) == leaves(docs[s]),
            forall|j: int| 0 <= j < picks@.len() ==> (#[trigger] picks@[j]).0 < sources@.len(),
            map@ == page_numbers(docs, all, i as nat),
        decreases picks@.len() - i,
    {
        let (src, page) = picks[i];
        assert(all[i as int] == (src as nat, page as nat));
        assert(picks@[i as int].0 < sources@.len());
        assert(nats(leaf_ids@[src as int]@) == leaves(docs[src as int]));
        if page < leaf_ids[src].len() {
            assert(leaves(docs[src as int])[page as int] == leaf_ids@[src as int]@[page as int]);
            map.insert(src, leaf_ids[src][page], i + 1);
        }
        i += 1;
    }
    map
}

/// Build a new file from chosen pages, given by source and position, of the sources. Only what the
/// pages need is copied.
pub fn subset_to_bytes(sources: &[&PdfDocument], picks: &[(usize, usize)], opts: SubsetOptions) -> (r: Result<
    (Vec<u8>, SubsetReport),
    Error,
>)
    ensures
        match r {
            Ok((bytes, report)) => subset(documents(sources@), picks_of(picks@), opts) == Ok::<
                (Seq<u8>, Summary),
                Failure,
            >((bytes@, report@)),
            Err(e) => subset(documents(sources@), picks_of(picks@), opts) == Err::<
                (Seq<u8>, Summary),
                Failure,
            >(e@),
        },
{
    let ghost docs = documents(sources@);
    let ghost all = picks_of(picks@);
    if picks.len() == 0 {
        return Err(Error::InvalidPdf("no pages selected".to_string()));
    }
    let mut i: usize = 0;
    while i < picks.len()
        invariant
            i <= picks@.len(),
            picks@.len() > 0,
            docs == documents(sources@),
            all == picks_of(picks@),
            forall|j: int| 0 <= j < i ==> (#[trigger] picks@[j]).0 < sources@.len(),
            bad_source(docs.len(), all, 0) == bad_source(docs.len(), all, i as nat),
        decreases picks@.len() - i,
    {
        assert(all[i as int] == (picks@[i as int].0 as nat, picks@[i as int].1 as nat));
        if picks[i].0 >= sources.len() {
            return Err(Error::InvalidPdf(numbered("source index ", picks[i].0, " out of range")));
        }
        i += 1;
    }
    let leaf_ids = all_leaves(sources);
    let mut builder = Builder::new(sources, opts);
    builder.severed = build_severed(sources, &leaf_ids, picks);
    builder.page_id_map = build_page_numbers(sources, &leaf_ids, picks);
    let ghost env = plan(docs, all, opts);
    assert(builder.env() == env);
    assert(builder@ == empty_state());
    let mut k: usize = 0;
    assert(empty_state().slots =~= planned(0).slots);
    while k < picks.len()
        invariant
            k <= picks@.len(),
            builder.env() == env,
            builder@ == planned(k as nat),
        decreases picks@.len() - k,
    {
        let pid = builder.allocate();
        builder.set_pin(pid, true);
        assert(builder@.slots =~= planned((k + 1) as nat).slots);
        k += 1;
    }
    let ghost start = builder@;
    let mut p: usize = 0;
    while p < picks.len()
        invariant
            p <= picks@.len(),
            picks@.len() > 0,
            docs == documents(sources@),
            all == picks_of(picks@),
            env == plan(docs, all, opts),
            start == planned(picks@.len()),
            bad_source(docs.len(), all, 0) is None,
            forall|j: int| 0 <= j < picks@.len() ==> (#[trigger] picks@[j]).0 < sources@.len(),
            builder.env() == env,
            build_pages(env, start, all, 0) == build_pages(env, builder@, all, p as nat),
        decreases picks@.len() - p,
    {
        let (src, page) = picks[p];
        assert(picks@[p as int].0 < sources@.len());
        assert(all[p as int] == (src as nat, page as nat));
        match builder.build_page(src, page, p + 1) {
            Ok(_) => {},
            Err(e) => return Err(e),
        }
        p += 1;
    }
    assert(picks@[0].0 < sources@.len());
    Ok(builder.finish())
}

/// Builds a new file from pages of several documents.
pub struct PdfRebuilder {
    sources: Vec<PdfDocument>,
    picks: Vec<(usize, usize)>,
    opts: SubsetOptions,
}

impl PdfRebuilder {
    /// The sources, in the order in which they were added.
    pub closed spec fn docs(&self) -> Seq<PdfDocument> {
        self.sources@
    }

    /// The chosen pages, in order.
    pub closed spec fn chosen(&self) -> Seq<(usize, usize)> {
        self.picks@
    }

    /// The options.
    pub closed spec fn options(&self) -> SubsetOptions {
        self.opts
    }

    pub fn new() -> (r: Self)
        ensures
            r.docs() == Seq::<PdfDocument>::empty(),
            r.chosen() == Seq::<(usize, usize)>::empty(),
            r.options() == default_options(),
    {
        PdfRebuilder { sources: Vec::new(), picks: Vec::new(), opts: SubsetOptions::default() }
    }

    /// The same rebuilder with other options.
    pub fn with_options(self, opts: SubsetOptions) -> (r: Self)
        ensures
            r.docs() == self.docs(),
            r.chosen() == self.chosen(),
            r.options() == opts,
    {
        PdfRebuilder { sources: self.sources, picks: self.picks, opts }
    }

    /// Add a source document, as it came from the parser. Gives its index, or the parser's error.
    pub fn add_source(&mut self, parsed: Result<PdfDocument, Error>) -> (r: Result<usize, Error>)
        ensures
            match parsed {
                Ok(doc) => {
                    &&& r == Ok::<usize, Error>(old(self).docs().len() as usize)
                    &&& r->Ok_0 == old(self).docs().len()
                    &&& final(self).docs() == old(self).docs().push(doc)
                },
                Err(e) => {
                    &&& r == Err::<usize, Error>(e)
                    &&& final(self).docs() == old(self).docs()
                },
            },
            final(self).chosen() == old(self).chosen(),
            final(self).options() == old(self).options(),
    {
        match parsed {
            Ok(doc) => {
                let index = self.sources.len();
                self.sources.push(doc);
                Ok(index)
            },
            Err(e) => Err(e),
        }
    }

    /// Append one page of a source.
    pub fn add_page(&mut self, source: usize, page: usize) -> (r: &mut Self)
        ensures
            r.docs() == old(self).docs(),
            r.chosen() == old(self).chosen().push((source, page)),
            r.options() == old(self).options(),
            *final(self) == *final(r),
    {
        self.picks.push((source, page));
        self
    }

    /// Append several pages of a source, in order.
    pub fn add_pages(&mut self, source: usize, pages: &[usize]) -> (r: &mut Self)
        ensures
            r.docs() == old(self).docs(),
            r.chosen() == old(self).chosen() + pages@.map_values(|p: usize| (source, p)),
            r.options() == old(self).options(),
            *final(self) == *final(r),
    {
        let ghost added = pages@.map_values(|p: usize| (source, p));
        let mut i: usize = 0;
        assert(self.chosen() =~= old(self).chosen() + added.take(0));
        while i < pages.len()
            invariant
                i <= pages@.len(),
                added == pages@.map_values(|p: usize| (source, p)),
                self.docs() == old(self).docs(),
                self.options() == old(self).options(),
                self.chosen() == old(self).chosen() + added.take(i as int),
            decreases pages@.len() - i,
        {
            self.picks.push((source, pages[i]));
            assert(self.chosen() =~= old(self).chosen() + added.take(i + 1));
            i += 1;
        }
        assert(added.take(i as int) =~= added);
        self
    }

    /// Build the file of the chosen pages.
    pub fn build(&self) -> (r: Result<(Vec<u8>, SubsetReport), Error>)
        ensures
            match r {
                Ok((bytes, report)) => subset(self.docs(), picks_of(self.chosen()), self.options()) == Ok::<
                    (Seq<u8>, Summary),
                    Failure,
                >((bytes@, report@)),
                Err(e) => subset(self.docs(), picks_of(self.chosen()), self.options()) == Err::<
                    (Seq<u8>, Summary),
                    Failure,
                >(e@),
            },
    {
        let mut refs: Vec<&PdfDocument> = Vec::new();
        let mut i: usize = 0;
        while i < self.sources.len()
            invariant
                i <= self.sources@.len(),
                refs@.len() == i,
                forall|j: int| 0 <= j < i ==> *(#[trigger] refs@[j]) == self.sources@[j],
            decreases self.sources@.len() - i,
        {
            refs.push(&self.sources[i]);
            i += 1;
        }
        assert(documents(refs@) =~= self.docs());
        subset_to_bytes(refs.as_slice(), self.picks.as_slice(), self.opts)
    }
}

impl Default for PdfRebuilder {
    fn default() -> (r: Self)
        ensures
            r.docs() == Seq::<PdfDocument>::empty(),
            r.chosen() == Seq::<(usize, usize)>::empty(),
            r.options() == default_options(),
    {
        PdfRebuilder::new()
    }
}

/// The pages of one document by their positions.
pub open spec fn single_picks(pages: Seq<usize>) -> Picks {
    pages.map_values(|p: usize| (0nat, p as nat))
}

/// Build a file of pages of one document, which is given as it came from the parser.
pub fn subset_pdf_bytes(parsed: Result<PdfDocument, Error>, pages: &[usize], opts: SubsetOptions) -> (r: Result<
    Vec<u8>,
    Error,
>)
    ensures
        match parsed {
            Ok(doc) => match r {
                Ok(bytes) => subset(seq![doc], single_picks(pages@), opts) is Ok && subset(
                    seq![doc],
                    single_picks(pages@),
                    opts,
                )->Ok_0.0 == bytes@,
                Err(e) => subset(seq![doc], single_picks(pages@), opts) == Err::<
                    (Seq<u8>, Summary),
                    Failure,
                >(e@),
            },
            Err(e) => r == Err::<Vec<u8>, Error>(e),
        },
{
    let doc = match parsed {
        Ok(doc) => doc,
        Err(e) => return Err(e),
    };
    let mut picks: Vec<(usize, usize)> = Vec::new();
    let mut i: usize = 0;
    while i < pages.len()
        invariant
            i <= pages@.len(),
            picks@.len() == i,
            forall|j: int| 0 <= j < i ==> (#[trigger] picks@[j]) == (0usize, pages@[j]),
        decreases pages@.len() - i,
    {
        picks.push((0, pages[i]));
        i += 1;
    }
    assert(picks_of(picks@) =~= single_picks(pages@));
    let mut refs: Vec<&PdfDocument> = Vec::new();
    refs.push(&doc);
    assert(documents(refs@) =~= seq![doc]);
    match subset_to_bytes(refs.as_slice(), picks.as_slice(), opts) {
        Ok((bytes, _)) => Ok(bytes),
        Err(e) => Err(e),
    }
}

} // verus!
