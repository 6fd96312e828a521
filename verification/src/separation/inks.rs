//! The inks of a page: those that it has plates for, and those that its content uses.

use std::collections::HashSet;
use vstd::prelude::*;
use crate::document::{
    resolve, stream_number, unseen, unseen_decreases, Content, Error, Failure, Operator, PdfDocument, SourcePage,
};
use crate::object::{dict_get, dict_is_name, obj_dict, Dict, Entries, Obj, Object};
use crate::text::str_eq;
use super::color::{initial_colors, ColorState, Colors, Paint};
use super::route::{form_start, named_form_found, page_start, stack_view, walk_op, walk_operator, Walk};
use super::spaces::{
    color_spaces, load_color_spaces, merge_color_spaces, name_texts, overlay, resolve_color_space, resolve_space,
    ResolvedSpace, Space,
};

verus! {

/// The inks of four-colour printing, in the order of their components.
pub open spec fn process_inks() -> Seq<Seq<char>> {
    seq!["Cyan"@, "Magenta"@, "Yellow"@, "Black"@]
}

/// A list with a name at its end, where it is not in it.
pub open spec fn add_name(list: Seq<Seq<char>>, name: Seq<char>) -> Seq<Seq<char>> {
    if list.contains(name) {
        list
    } else {
        list.push(name)
    }
}

/// A list with the first `k` of the given names added, one after the other.
pub open spec fn add_names(list: Seq<Seq<char>>, names: Seq<Seq<char>>, k: nat) -> Seq<Seq<char>>
    decreases k,
{
    if k == 0 {
        list
    } else {
        add_name(add_names(list, names, (k - 1) as nat), names[k - 1])
    }
}

/// The inks that a page has plates for: those of four-colour printing, whether it uses them or not,
/// and the spot inks that its resources declare.
pub open spec fn page_inks(page: SourcePage) -> Seq<Seq<char>> {
    add_names(process_inks(), name_texts(page.inks@), page.inks@.len())
}

/// The inks of a colour space.
pub open spec fn space_inks(space: Space) -> Seq<Seq<char>> {
    match space {
        Space::Cmyk => process_inks(),
        Space::IccCmyk => process_inks(),
        Space::Separation(ink) => seq![ink],
        Space::DeviceN(inks) => inks,
        _ => Seq::empty(),
    }
}

/// The external objects of a resource dictionary.
pub open spec fn xobjects(doc: PdfDocument, resources: Obj) -> Option<Entries> {
    match resources {
        Obj::Dictionary(d) => match dict_get(d, "XObject"@) {
            Some(o) => match resolve(doc, o) {
                Some(x) => obj_dict(x),
                None => None,
            },
            None => None,
        },
        _ => None,
    }
}

/// The form that a name stands for: the number of its content and its dictionary. None where the name
/// stands for an image or for nothing.
pub open spec fn named_form(doc: PdfDocument, resources: Obj, name: Seq<char>) -> Option<(Option<nat>, Entries)> {
    match xobjects(doc, resources) {
        Some(x) => match dict_get(x, name) {
            Some(o) => match resolve(doc, o) {
                Some(Obj::Stream(d, _)) => if dict_is_name(d, "Subtype"@, "Form"@) {
                    Some((stream_number(doc, o), d))
                } else {
                    None
                },
                _ => None,
            },
            None => None,
        },
        None => None,
    }
}

/// The content of a form, which goes by its number.
pub open spec fn form_content(doc: PdfDocument, id: Option<nat>) -> Content {
    match id {
        Some(n) => doc.content_of(n),
        None => Content::Undecodable,
    }
}

/// The resources of a form; those where it is drawn where it has none of its own.
pub open spec fn form_resources(doc: PdfDocument, form: Entries, outer: Obj) -> Result<Obj, Failure> {
    match dict_get(form, "Resources"@) {
        Some(o) => match resolve(doc, o) {
            Some(r) => Ok(r),
            None => Err(Failure::ObjectNotFound(o->Reference_0)),
        },
        None => Ok(outer),
    }
}

/// What is needed to go through a form: its content, resources and colour spaces.
pub open spec fn open_form(
    doc: PdfDocument,
    form: (Option<nat>, Entries),
    resources: Obj,
    spaces: Entries,
) -> Result<(Content, Obj, Entries), Failure> {
    let content = form_content(doc, form.0);
    if content is Undecodable {
        Err(Failure::UndecodableStream)
    } else {
        match form_resources(doc, form.1, resources) {
            Err(e) => Err(e),
            Ok(inner) => match color_spaces(doc, inner) {
                Err(e) => Err(e),
                Ok(own) => Ok((content, inner, overlay(spaces, own, own.len()))),
            },
        }
    }
}

/// A list with the inks of the space of a colour added.
pub open spec fn add_paint(doc: PdfDocument, spaces: Entries, p: Paint, list: Seq<Seq<char>>) -> Seq<Seq<char>> {
    let inks = space_inks(resolve_space(doc, p.space, spaces, spaces.len()));
    add_names(list, inks, inks.len())
}

/// A list with the inks of the spaces of the current colours added.
pub open spec fn add_colors(doc: PdfDocument, spaces: Entries, c: Colors, list: Seq<Seq<char>>) -> Seq<
    Seq<char>,
> {
    add_paint(doc, spaces, c.stroke, add_paint(doc, spaces, c.fill, list))
}

/// A list with the process inks added, where the operator sets a process colour.
pub open spec fn add_process(op: Operator, list: Seq<Seq<char>>) -> Seq<Seq<char>> {
    match op {
        Operator::SetFillCmyk { .. } | Operator::SetStrokeCmyk { .. } => add_names(list, process_inks(), 4),
        _ => list,
    }
}

/// The inks that a form adds to those that were found. The forms in `active` are being gone through;
/// such a form is not gone through again inside itself. A form starts with the colours that are
/// current where it is drawn.
pub open spec fn scan_form(
    doc: PdfDocument,
    active: Set<usize>,
    name: Seq<char>,
    resources: Obj,
    spaces: Entries,
    start: Colors,
    found: Seq<Seq<char>>,
) -> Result<Seq<Seq<char>>, Failure>
    decreases unseen(doc, active), 0nat, 0nat,
{
    match named_form(doc, resources, name) {
        None => Ok(found),
        Some(form) => if form.0 is Some && active.contains(form.0->0 as usize) {
            Ok(found)
        } else {
            match open_form(doc, form, resources, spaces) {
                Err(e) => Err(e),
                Ok((content, inner, inner_spaces)) => if content is Operators && form.0 is Some {
                    proof {
                        named_form_found(doc, resources, name);
                        unseen_decreases(doc, active, form.0->0 as usize);
                    }
                    scan_ops(
                        doc,
                        active.insert(form.0->0 as usize),
                        content.operators(),
                        0,
                        inner,
                        inner_spaces,
                        form_start(start),
                        add_colors(doc, inner_spaces, start, found),
                    )
                } else {
                    Ok(found)
                },
            }
        },
    }
}

/// The inks that the operators from position `i` on add to those that were found: those of every
/// colour that becomes current, and the process inks where a process colour is set.
pub open spec fn scan_ops(
    doc: PdfDocument,
    active: Set<usize>,
    ops: Seq<Operator>,
    i: nat,
    resources: Obj,
    spaces: Entries,
    w: Walk,
    found: Seq<Seq<char>>,
) -> Result<Seq<Seq<char>>, Failure>
    decreases unseen(doc, active), 1nat, ops.len() - i,
{
    if i >= ops.len() {
        Ok(found)
    } else {
        let op = ops[i as int];
        match op {
            Operator::Do { name } => match scan_form(
                doc,
                active,
                name@,
                resources,
                spaces,
                w.stack.last(),
                found,
            ) {
                Err(e) => Err(e),
                Ok(more) => scan_ops(doc, active, ops, i + 1, resources, spaces, w, more),
            },
            _ => {
                let next = walk_op(doc, spaces, w, op);
                let more = add_colors(doc, spaces, next.stack.last(), add_process(op, found));
                scan_ops(doc, active, ops, i + 1, resources, spaces, next, more)
            },
        }
    }
}

/// The content of a page, or why there is none.
pub open spec fn page_operators(page: SourcePage) -> Result<Seq<Operator>, Failure> {
    match page.content {
        Content::Undecodable => Err(Failure::UndecodableStream),
        Content::Unparsable => Err(Failure::UnparsableContent),
        Content::Operators(ops) => Ok(ops@),
    }
}

/// The inks that could appear where the content of a page is painted, forms included.
pub open spec fn referenced_inks(doc: PdfDocument, page: SourcePage) -> Result<Seq<Seq<char>>, Failure> {
    match color_spaces(doc, page.resources@) {
        Err(e) => Err(e),
        Ok(spaces) => match page_operators(page) {
            Err(e) => Err(e),
            Ok(ops) => scan_ops(
                doc,
                Set::empty(),
                ops,
                0,
                page.resources@,
                spaces,
                page_start(),
                add_colors(doc, spaces, initial_colors(), Seq::empty()),
            ),
        },
    }
}

proof fn add_name_keeps(list: Seq<Seq<char>>, name: Seq<char>)
    requires
        list.no_duplicates(),
    ensures
        add_name(list, name).no_duplicates(),
        add_name(list, name).contains(name),
        forall|n: Seq<char>| list.contains(n) ==> #[trigger] add_name(list, name).contains(n),
        list.len() <= add_name(list, name).len(),
        forall|j: int| 0 <= j < list.len() ==> add_name(list, name)[j] == #[trigger] list[j],
{
    let after = add_name(list, name);
    if !list.contains(name) {
        assert(after[list.len() as int] == name);
        assert forall|n: Seq<char>| list.contains(n) implies #[trigger] after.contains(n) by {
            let j = choose|j: int| 0 <= j < list.len() && list[j] == n;
            assert(after[j] == n);
        }
    }
}

/// Adding names keeps what a list holds, and holds each name once.
pub proof fn add_names_keeps(list: Seq<Seq<char>>, names: Seq<Seq<char>>, k: nat)
    requires
        list.no_duplicates(),
        k <= names.len(),
    ensures
        add_names(list, names, k).no_duplicates(),
        forall|j: int| 0 <= j < k ==> add_names(list, names, k).contains(#[trigger] names[j]),
        list.len() <= add_names(list, names, k).len(),
        forall|j: int| 0 <= j < list.len() ==> add_names(list, names, k)[j] == #[trigger] list[j],
    decreases k,
{
    if k > 0 {
        add_names_keeps(list, names, (k - 1) as nat);
        add_name_keeps(add_names(list, names, (k - 1) as nat), names[k - 1]);
        let before = add_names(list, names, (k - 1) as nat);
        let after = add_names(list, names, k);
        assert forall|j: int| 0 <= j < list.len() implies after[j] == #[trigger] list[j] by {
            assert(after[j] == before[j]);
        }
    }
}

/// The plates of a page are those of the four process inks first, then those of its spot inks, and
/// no ink has two.
pub proof fn page_inks_in_order(page: SourcePage)
    ensures
        page_inks(page).no_duplicates(),
        page_inks(page).len() >= 4,
        page_inks(page).take(4) == process_inks(),
        forall|j: int|
            0 <= j < page.inks@.len() ==> page_inks(page).contains((#[trigger] page.inks@[j])@),
{
    let names = name_texts(page.inks@);
    process_inks_differ();
    add_names_keeps(process_inks(), names, page.inks@.len());
    assert forall|j: int| 0 <= j < page.inks@.len() implies page_inks(page).contains(
        (#[trigger] page.inks@[j])@,
    ) by {
        assert(names[j] == page.inks@[j]@);
    }
    assert forall|j: int| 0 <= j < 4 implies page_inks(page)[j] == #[trigger] process_inks()[j] by {}
    assert(page_inks(page).take(4) =~= process_inks());
}

/// A list holds nothing but what it held and the names that were added.
pub proof fn only_named(list: Seq<Seq<char>>, names: Seq<Seq<char>>, k: nat, ink: Seq<char>)
    requires
        k <= names.len(),
        add_names(list, names, k).contains(ink),
    ensures
        list.contains(ink) || exists|j: int| 0 <= j < k && #[trigger] names[j] == ink,
    decreases k,
{
    if k > 0 {
        let before = add_names(list, names, (k - 1) as nat);
        if before.contains(ink) {
            only_named(list, names, (k - 1) as nat, ink);
        } else {
            let after = add_names(list, names, k);
            let i = choose|i: int| 0 <= i < after.len() && after[i] == ink;
            if i < before.len() {
                assert(before[i] == ink);
            }
            assert(names[k - 1] == ink);
        }
    }
}

proof fn added_in_order(list: Seq<Seq<char>>, names: Seq<Seq<char>>, k: nat, a: int, b: int)
    requires
        list.no_duplicates(),
        0 <= a < b < k <= names.len(),
        !list.contains(names[a]),
        !list.contains(names[b]),
        forall|j: int| 0 <= j < b ==> #[trigger] names[j] != names[b],
    ensures
        exists|x: int, y: int|
            #![trigger add_names(list, names, k)[x], add_names(list, names, k)[y]]
            0 <= x < y < add_names(list, names, k).len() && add_names(list, names, k)[x] == names[a] && add_names(
                list,
                names,
                k,
            )[y] == names[b],
    decreases k,
{
    let before = add_names(list, names, (k - 1) as nat);
    let after = add_names(list, names, k);
    add_names_keeps(list, names, (k - 1) as nat);
    add_name_keeps(before, names[k - 1]);
    if b < k - 1 {
        added_in_order(list, names, (k - 1) as nat, a, b);
        let (x, y) = choose|x: int, y: int|
            #![trigger before[x], before[y]]
            0 <= x < y < before.len() && before[x] == names[a] && before[y] == names[b];
        assert(after[x] == before[x] && after[y] == before[y]);
    } else {
        assert(before.contains(names[a]));
        let x = choose|x: int| 0 <= x < before.len() && before[x] == names[a];
        if before.contains(names[b]) {
            only_named(list, names, (k - 1) as nat, names[b]);
            let j = choose|j: int| 0 <= j < k - 1 && #[trigger] names[j] == names[b];
            assert(names[j] != names[b]);
        }
        assert(after[x] == names[a]);
        assert(after[before.len() as int] == names[b]);
    }
}

/// The plates of a page are those of cyan, magenta, yellow and black, and then those of the spot inks
/// that it declares, in the order in which they are first declared, and no others.
pub proof fn page_inks_are_those_declared(page: SourcePage, ink: Seq<char>, a: int, b: int)
    ensures
        page_inks(page)[0] == "Cyan"@ && page_inks(page)[1] == "Magenta"@ && page_inks(page)[2] == "Yellow"@
            && page_inks(page)[3] == "Black"@,
        page_inks(page).contains(ink) <==> ink == "Cyan"@ || ink == "Magenta"@ || ink == "Yellow"@ || ink == "Black"@
            || exists|j: int| 0 <= j < page.inks@.len() && (#[trigger] page.inks@[j])@ == ink,
        0 <= a < b < page.inks@.len() && is_spot(page.inks@[a]@) && is_spot(page.inks@[b]@) && (forall|j: int|
            0 <= j < b ==> (#[trigger] page.inks@[j])@ != page.inks@[b]@) ==> exists|x: int, y: int|
            #![trigger page_inks(page)[x], page_inks(page)[y]]
            0 <= x < y < page_inks(page).len() && page_inks(page)[x] == page.inks@[a]@ && page_inks(page)[y]
                == page.inks@[b]@,
{
    let names = name_texts(page.inks@);
    let list = process_inks();
    assert(list[0] == "Cyan"@ && list[1] == "Magenta"@ && list[2] == "Yellow"@ && list[3] == "Black"@);
    process_inks_differ();
    page_inks_in_order(page);
    add_names_keeps(list, names, page.inks@.len());
    assert(forall|i: int| 0 <= i < 4 ==> page_inks(page)[i] == #[trigger] list[i]);
    if page_inks(page).contains(ink) {
        only_named(list, names, page.inks@.len(), ink);
        if !list.contains(ink) {
            let j = choose|j: int| 0 <= j < page.inks@.len() && #[trigger] names[j] == ink;
            assert(page.inks@[j]@ == ink);
        }
    }
    if 0 <= a < b < page.inks@.len() && is_spot(page.inks@[a]@) && is_spot(page.inks@[b]@) && forall|j: int|
        0 <= j < b ==> (#[trigger] page.inks@[j])@ != page.inks@[b]@ {
        assert forall|j: int| 0 <= j < b implies #[trigger] names[j] != names[b] by {
            assert(page.inks@[j]@ != page.inks@[b]@);
        }
        added_in_order(list, names, page.inks@.len(), a, b);
    }
}

/// Is it an ink other than the four of process printing?
pub open spec fn is_spot(ink: Seq<char>) -> bool {
    ink != "Cyan"@ && ink != "Magenta"@ && ink != "Yellow"@ && ink != "Black"@
}

proof fn process_inks_differ()
    ensures
        process_inks().no_duplicates(),
{
    reveal_strlit("Cyan");
    reveal_strlit("Magenta");
    reveal_strlit("Yellow");
    reveal_strlit("Black");
    assert("Cyan"@[0] == 'C');
    assert("Magenta"@[0] == 'M');
    assert("Yellow"@[0] == 'Y');
    assert("Black"@[0] == 'B');
}

/// Is the name in the list?
pub fn list_contains(list: &Vec<String>, name: &str) -> (r: bool)
    ensures
        r == name_texts(list@).contains(name@),
{
    let mut i: usize = 0;
    while i < list.len()
        invariant
            i <= list@.len(),
            forall|j: int| 0 <= j < i ==> (#[trigger] list@[j])@ != name@,
        decreases list@.len() - i,
    {
        if str_eq(list[i].as_str(), name) {
            assert(name_texts(list@)[i as int] == name@);
            return true;
        }
        i += 1;
    }
    proof {
        if name_texts(list@).contains(name@) {
            let j = choose|j: int| 0 <= j < name_texts(list@).len() && name_texts(list@)[j] == name@;
            assert(list@[j]@ == name@);
        }
    }
    false
}

fn push_name(list: &mut Vec<String>, name: &str)
    ensures
        name_texts(final(list)@) == add_name(name_texts(old(list)@), name@),
{
    if !list_contains(list, name) {
        let text = name.to_string();
        list.push(text);
        assert(name_texts(list@) =~= name_texts(old(list)@).push(name@));
    }
}

fn push_process_inks(list: &mut Vec<String>)
    ensures
        name_texts(final(list)@) == add_names(name_texts(old(list)@), process_inks(), 4),
{
    let ghost start = name_texts(list@);
    assert(add_names(start, process_inks(), 0) == start);
    push_name(list, "Cyan");
    assert(name_texts(list@) == add_names(start, process_inks(), 1));
    push_name(list, "Magenta");
    assert(name_texts(list@) == add_names(start, process_inks(), 2));
    push_name(list, "Yellow");
    assert(name_texts(list@) == add_names(start, process_inks(), 3));
    push_name(list, "Black");
    assert(name_texts(list@) == add_names(start, process_inks(), 4));
}

fn push_names(list: &mut Vec<String>, names: &Vec<String>)
    ensures
        name_texts(final(list)@) == add_names(name_texts(old(list)@), name_texts(names@), names@.len()),
{
    let ghost start = name_texts(list@);
    let mut i: usize = 0;
    while i < names.len()
        invariant
            i <= names@.len(),
            name_texts(list@) == add_names(start, name_texts(names@), i as nat),
        decreases names@.len() - i,
    {
        assert(name_texts(names@)[i as int] == names@[i as int]@);
        push_name(list, names[i].as_str());
        i += 1;
    }
}

/// The inks that a page has plates for.
pub fn collect_page_inks(doc: &PdfDocument, page_num: usize) -> (r: Result<Vec<String>, Error>)
    ensures
        match r {
            Ok(inks) => page_num < doc.page_seq().len() && name_texts(inks@) == page_inks(
                doc.page_seq()[page_num as int],
            ),
            Err(e) => page_num >= doc.page_seq().len() && e@ == Failure::PageNotFound(page_num as nat),
        },
{
    let page = match doc.get_page(page_num) {
        Ok(p) => p,
        Err(e) => return Err(e),
    };
    let mut inks: Vec<String> = Vec::new();
    inks.push("Cyan".to_string());
    inks.push("Magenta".to_string());
    inks.push("Yellow".to_string());
    inks.push("Black".to_string());
    assert(name_texts(inks@) =~= process_inks());
    push_names(&mut inks, &page.inks);
    Ok(inks)
}

/// Add the inks of a colour space.
pub fn inks_from_space(space_name: &str, spaces: &Dict, doc: &PdfDocument, out: &mut Vec<String>)
    ensures
        ({
            let inks = space_inks(resolve_space(*doc, space_name@, spaces@, spaces@.len()));
            name_texts(final(out)@) == add_names(name_texts(old(out)@), inks, inks.len())
        }),
{
    match resolve_color_space(space_name, spaces, doc) {
        ResolvedSpace::Cmyk => push_process_inks(out),
        ResolvedSpace::IccCmyk => push_process_inks(out),
        ResolvedSpace::Separation(ink) => {
            push_name(out, ink.as_str());
            let ghost inks = seq![ink@];
            assert(add_names(name_texts(old(out)@), inks, 0) == name_texts(old(out)@));
            assert(name_texts(out@) == add_names(name_texts(old(out)@), inks, 1));
        },
        ResolvedSpace::DeviceN(inks) => {
            push_names(out, &inks);
            assert(name_texts(inks@).len() == inks@.len());
        },
        _ => {},
    }
}

/// A form that is to be gone through.
pub struct FormRef<'a> {
    pub id: Option<usize>,
    pub dict: &'a Dict,
}

impl<'a> View for FormRef<'a> {
    type V = (Option<nat>, Entries);

    open spec fn view(&self) -> (Option<nat>, Entries) {
        (
            match self.id {
                Some(n) => Some(n as nat),
                None => None,
            },
            self.dict@,
        )
    }
}

/// The form that a name stands for.
pub fn find_form<'a>(doc: &'a PdfDocument, resources: &'a Object, name: &str) -> (r: Option<FormRef<'a>>)
    ensures
        match r {
            Some(f) => named_form(*doc, resources@, name@) == Some(f@),
            None => named_form(*doc, resources@, name@) is None,
        },
{
    let rd = match resources {
        Object::Dictionary(d) => d,
        _ => return None,
    };
    let xobj_dict = match rd.get("XObject") {
        Some(o) => match doc.resolve_object(o) {
            Ok(x) => match x.as_dict() {
                Some(d) => d,
                None => return None,
            },
            Err(_) => return None,
        },
        None => return None,
    };
    let entry = match xobj_dict.get(name) {
        Some(o) => o,
        None => return None,
    };
    match doc.resolve_object(entry) {
        Ok(Object::Stream { dict, .. }) => {
            if dict.is_name("Subtype", "Form") {
                Some(FormRef { id: doc.number_of_stream(entry), dict })
            } else {
                None
            }
        },
        _ => None,
    }
}

/// A form with what is needed to go through it.
pub struct OpenForm<'a> {
    /// Its operators; none where its content cannot be parsed.
    pub operators: Option<&'a Vec<Operator>>,
    pub resources: &'a Object,
    pub spaces: Dict,
}

/// Get what is needed to go through a form.
pub fn open_form_ref<'a>(
    doc: &'a PdfDocument,
    form: &FormRef<'a>,
    resources: &'a Object,
    spaces: &Dict,
) -> (r: Result<OpenForm<'a>, Error>)
    ensures
        match r {
            Ok(f) => {
                let opened = open_form(*doc, form@, resources@, spaces@);
                &&& opened is Ok
                &&& opened->Ok_0.1 == f.resources@
                &&& opened->Ok_0.2 == f.spaces@
                &&& match f.operators {
                    Some(ops) => opened->Ok_0.0 == Content::Operators(*ops),
                    None => opened->Ok_0.0 == Content::Unparsable,
                }
            },
            Err(e) => open_form(*doc, form@, resources@, spaces@) == Err::<
                (Content, Obj, Entries),
                Failure,
            >(e@),
        },
{
    let content = match form.id {
        Some(id) => doc.load_content(crate::object::ObjectRef { id, gen: 0 }),
        None => None,
    };
    let operators = match content {
        Some(Content::Operators(ops)) => Some(ops),
        Some(Content::Unparsable) => None,
        Some(Content::Undecodable) => return Err(Error::UndecodableStream),
        None => return Err(Error::UndecodableStream),
    };
    let inner = match form.dict.get("Resources") {
        Some(o) => match doc.resolve_object(o) {
            Ok(r) => r,
            Err(e) => return Err(e),
        },
        None => resources,
    };
    let own = match load_color_spaces(doc, inner) {
        Ok(d) => d,
        Err(e) => return Err(e),
    };
    let merged = merge_color_spaces(spaces, &own);
    Ok(OpenForm { operators, resources: inner, spaces: merged })
}

fn push_colors(colors: &ColorState, doc: &PdfDocument, spaces: &Dict, referenced: &mut Vec<String>)
    ensures
        name_texts(final(referenced)@) == add_colors(*doc, spaces@, colors@, name_texts(old(referenced)@)),
{
    inks_from_space(colors.fill.space.as_str(), spaces, doc, referenced);
    inks_from_space(colors.stroke.space.as_str(), spaces, doc, referenced);
}

/// Add the inks that operators use, from the colours `start` on.
fn scan_operators_for_inks(
    operators: &Vec<Operator>,
    doc: &PdfDocument,
    resources: &Object,
    spaces: &Dict,
    start: ColorState,
    active: &mut HashSet<usize>,
    referenced: &mut Vec<String>,
) -> (r: Result<(), Error>)
    ensures
        ({
            let wanted = scan_ops(
                *doc,
                old(active)@,
                operators@,
                0,
                resources@,
                spaces@,
                Walk { stack: seq![start@], in_text: false },
                add_colors(*doc, spaces@, start@, name_texts(old(referenced)@)),
            );
            match r {
                Ok(_) => wanted == Ok::<Seq<Seq<char>>, Failure>(name_texts(final(referenced)@))
                    && final(active)@ == old(active)@,
                Err(e) => wanted == Err::<Seq<Seq<char>>, Failure>(e@),
            }
        }),
    decreases unseen(*doc, old(active)@), 1nat,
{
    push_colors(&start, doc, spaces, referenced);
    let ghost first = name_texts(referenced@);
    let ghost begun = Walk { stack: seq![start@], in_text: false };
    let mut stack: Vec<ColorState> = Vec::new();
    stack.push(start);
    let mut in_text = false;
    assert(stack_view(stack@) =~= begun.stack);
    let mut i: usize = 0;
    while i < operators.len()
        invariant
            i <= operators@.len(),
            stack@.len() > 0,
            active@ == old(active)@,
            begun == (Walk { stack: seq![start@], in_text: false }),
            first == add_colors(*doc, spaces@, start@, name_texts(old(referenced)@)),
            scan_ops(*doc, old(active)@, operators@, 0, resources@, spaces@, begun, first) == scan_ops(
                *doc,
                old(active)@,
                operators@,
                i as nat,
                resources@,
                spaces@,
                Walk { stack: stack_view(stack@), in_text },
                name_texts(referenced@),
            ),
        decreases operators@.len() - i,
    {
        let op = &operators[i];
        let ghost w = Walk { stack: stack_view(stack@), in_text };
        let top = stack.len() - 1;
        assert(w.stack.last() == stack@[top as int]@);
        if let Operator::Do { name } = op {
            let inherited = stack[top].copy();
            match scan_form_for_inks(name, doc, resources, spaces, inherited, active, referenced) {
                Ok(_) => {},
                Err(e) => return Err(e),
            }
        } else {
            walk_operator(doc, spaces, op, &mut stack, &mut in_text);
            match op {
                Operator::SetFillCmyk { .. } => push_process_inks(referenced),
                Operator::SetStrokeCmyk { .. } => push_process_inks(referenced),
                _ => {},
            }
            let top = stack.len() - 1;
            assert(stack_view(stack@).last() == stack@[top as int]@);
            push_colors(&stack[top], doc, spaces, referenced);
        }
        i += 1;
    }
    Ok(())
}

fn scan_form_for_inks(
    name: &String,
    doc: &PdfDocument,
    resources: &Object,
    spaces: &Dict,
    inherited: ColorState,
    active: &mut HashSet<usize>,
    referenced: &mut Vec<String>,
) -> (r: Result<(), Error>)
    ensures
        ({
            let wanted = scan_form(
                *doc,
                old(active)@,
                name@,
                resources@,
                spaces@,
                inherited@,
                name_texts(old(referenced)@),
            );
            match r {
                Ok(_) => wanted == Ok::<Seq<Seq<char>>, Failure>(name_texts(final(referenced)@))
                    && final(active)@ == old(active)@,
                Err(e) => wanted == Err::<Seq<Seq<char>>, Failure>(e@),
            }
        }),
    decreases unseen(*doc, old(active)@), 0nat,
{
    let form = match find_form(doc, resources, name.as_str()) {
        Some(f) => f,
        None => return Ok(()),
    };
    if let Some(id) = form.id {
        if active.contains(&id) {
            return Ok(());
        }
    }
    let opened = match open_form_ref(doc, &form, resources, spaces) {
        Ok(f) => f,
        Err(e) => return Err(e),
    };
    let (ops, id) = match (opened.operators, form.id) {
        (Some(ops), Some(id)) => (ops, id),
        _ => return Ok(()),
    };
    proof {
        named_form_found(*doc, resources@, name@);
        unseen_decreases(*doc, active@, id);
    }
    active.insert(id);
    let mut start = inherited;
    start.render_mode = 0;
    match scan_operators_for_inks(ops, doc, opened.resources, &opened.spaces, start, active, referenced) {
        Ok(_) => {},
        Err(e) => return Err(e),
    }
    active.remove(&id);
    assert(active@ =~= old(active)@);
    Ok(())
}

/// The inks that could appear where the content of a page is painted, forms included.
pub fn collect_referenced_inks(doc: &PdfDocument, page_num: usize) -> (r: Result<Vec<String>, Error>)
    ensures
        match r {
            Ok(inks) => page_num < doc.page_seq().len() && referenced_inks(
                *doc,
                doc.page_seq()[page_num as int],
            ) == Ok::<Seq<Seq<char>>, Failure>(name_texts(inks@)),
            Err(e) => if page_num < doc.page_seq().len() {
                referenced_inks(*doc, doc.page_seq()[page_num as int]) == Err::<Seq<Seq<char>>, Failure>(e@)
            } else {
                e@ == Failure::PageNotFound(page_num as nat)
            },
        },
{
    let page = match doc.get_page(page_num) {
        Ok(p) => p,
        Err(e) => return Err(e),
    };
    let spaces = match load_color_spaces(doc, &page.resources) {
        Ok(d) => d,
        Err(e) => return Err(e),
    };
    let ops = match &page.content {
        Content::Operators(ops) => ops,
        Content::Undecodable => return Err(Error::UndecodableStream),
        Content::Unparsable => return Err(Error::UnparsableContent),
    };
    let mut referenced: Vec<String> = Vec::new();
    let mut active: HashSet<usize> = HashSet::new();
    assert(name_texts(referenced@) =~= Seq::empty());
    assert(active@ =~= Set::empty());
    match scan_operators_for_inks(
        ops,
        doc,
        &page.resources,
        &spaces,
        ColorState::initial(),
        &mut active,
        &mut referenced,
    ) {
        Ok(_) => Ok(referenced),
        Err(e) => Err(e),
    }
}

} // verus!
