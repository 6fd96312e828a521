//! Which inks the content of a page could put on its plates.

use vstd::prelude::*;
use crate::document::{Operator, PdfDocument, SourcePage};
use crate::object::{Entries, Obj};
use super::color::{initial_colors, Colors};
use super::inks::{
    add_colors, add_paint, add_process, only_named, process_inks, referenced_inks, scan_form, scan_ops,
    space_inks,
};
use super::route::{page_start, walk_op, Walk};
use super::shown::{cmyk_name, governed, governing, gray_name, is_separation, page_spaces, rgb_name, space_words};
use super::spaces::{device_space, names_in, resolve_space, Space};
use super::unused::{colors_added, extended_contains, form_only_adds, process_added, scan_only_adds};

verus! {

/// Is it one of the four inks of process printing?
pub open spec fn is_process(ink: Seq<char>) -> bool {
    ink == "Cyan"@ || ink == "Magenta"@ || ink == "Yellow"@ || ink == "Black"@
}

/// Could the space of the given name put the ink on its plate: is it a spot ink of the space, or a
/// process ink of a process space? Of a name that stands for a name nothing is said.
pub open spec fn may_ink(spaces: Entries, name: Seq<char>, ink: Seq<char>) -> bool {
    match governing(spaces, name) {
        Some(Obj::Array(a)) => {
            ||| is_separation(Obj::Array(a), ink)
            ||| a.len() > 1 && a[0] == Obj::Name("DeviceN"@) && (a[1] matches Obj::Array(items) && items.contains(
                Obj::Name(ink),
            ))
            ||| a.len() > 0 && is_process(ink) && (a[0] matches Obj::Name(kind) && (cmyk_name(kind) || kind
                == "ICCBased"@))
        },
        Some(Obj::Name(n)) => cmyk_name(n) && is_process(ink) || !cmyk_name(n) && !rgb_name(n) && !gray_name(n),
        Some(_) => false,
        None => cmyk_name(name) && is_process(ink),
    }
}

/// Does the operator enter the space of the given name, for filling or for stroking?
pub open spec fn enters(op: Operator, name: Seq<char>) -> bool {
    match op {
        Operator::SetFillColorSpace { name: n } => n@ == name,
        Operator::SetStrokeColorSpace { name: n } => n@ == name,
        _ => false,
    }
}

/// Does the operator set a colour in the space of the given name?
pub open spec fn names_space(op: Operator, name: Seq<char>) -> bool {
    match op {
        Operator::SetFillColorSpace { name: n } => n@ == name,
        Operator::SetStrokeColorSpace { name: n } => n@ == name,
        Operator::SetFillGray { .. } => name == "DeviceGray"@,
        Operator::SetStrokeGray { .. } => name == "DeviceGray"@,
        Operator::SetFillRgb { .. } => name == "DeviceRGB"@,
        Operator::SetStrokeRgb { .. } => name == "DeviceRGB"@,
        Operator::SetFillCmyk { .. } => name == "DeviceCMYK"@,
        Operator::SetStrokeCmyk { .. } => name == "DeviceCMYK"@,
        _ => false,
    }
}

/// Is the space of that name one that the operators set a colour in, or the one at the start of a page?
pub open spec fn space_named(ops: Seq<Operator>, name: Seq<char>) -> bool {
    name == "DeviceGray"@ || exists|j: int| 0 <= j < ops.len() && names_space(#[trigger] ops[j], name)
}

/// Is there an operator that sets a process colour?
pub open spec fn sets_process(ops: Seq<Operator>) -> bool {
    exists|j: int| 0 <= j < ops.len() && ((#[trigger] ops[j]) is SetFillCmyk || ops[j] is SetStrokeCmyk)
}

/// Could the operators put the ink on its plate?
pub open spec fn ops_may_ink(spaces: Entries, ops: Seq<Operator>, ink: Seq<char>) -> bool {
    ||| sets_process(ops) && is_process(ink)
    ||| exists|name: Seq<char>| #[trigger] space_named(ops, name) && may_ink(spaces, name, ink)
}

proof fn process_list(ink: Seq<char>)
    ensures
        process_inks().contains(ink) <==> is_process(ink),
        process_inks().len() == 4,
{
    let l = process_inks();
    assert(l[0] == "Cyan"@ && l[1] == "Magenta"@ && l[2] == "Yellow"@ && l[3] == "Black"@);
    if l.contains(ink) {
        let i = choose|i: int| 0 <= i < l.len() && l[i] == ink;
        assert(l[i] == ink);
    }
}

proof fn named_item(items: Seq<Obj>, ink: Seq<char>)
    ensures
        names_in(items).contains(ink) <==> items.contains(Obj::Name(ink)),
    decreases items.len(),
{
    if items.len() > 0 {
        let front = items.drop_last();
        named_item(front, ink);
        let a = names_in(front);
        let b = names_in(items);
        assert(items[items.len() - 1] == items.last());
        if items.contains(Obj::Name(ink)) {
            let i = choose|i: int| 0 <= i < items.len() && items[i] == Obj::Name(ink);
            if i < front.len() {
                assert(front[i] == Obj::Name(ink));
                let j = choose|j: int| 0 <= j < a.len() && a[j] == ink;
                assert(b[j] == ink);
            } else {
                assert(b[a.len() as int] == ink);
            }
        }
        if b.contains(ink) {
            let j = choose|j: int| 0 <= j < b.len() && b[j] == ink;
            if j < a.len() {
                assert(a[j] == ink);
                let i = choose|i: int| 0 <= i < front.len() && front[i] == Obj::Name(ink);
                assert(items[i] == Obj::Name(ink));
            } else {
                assert(items.last() == Obj::Name(ink));
            }
        }
    } else {
        assert(!names_in(items).contains(ink));
    }
}

proof fn inks_of_space(doc: PdfDocument, spaces: Entries, name: Seq<char>, ink: Seq<char>)
    ensures
        space_inks(resolve_space(doc, name, spaces, spaces.len())).contains(ink) && ink.len() > 0 ==> may_ink(
            spaces,
            name,
            ink,
        ),
{
    space_words();
    governed(doc, spaces, name);
    process_list(ink);
    let space = resolve_space(doc, name, spaces, spaces.len());
    assert forall|n: Seq<char>| #[trigger] device_space(n) is Some implies cmyk_name(n) || rgb_name(n) || gray_name(n) by {}
    if let Some(Obj::Array(a)) = governing(spaces, name) {
        if a.len() > 1 {
            if let Obj::Array(items) = a[1] {
                named_item(items, ink);
            }
        }
        if let Space::Separation(spot) = space {
            assert(seq![spot][0] == spot);
        }
    }
    if governing(spaces, name) matches Some(o) && !(o is Array) && !(o is Name) {
        other_objects(doc, spaces, name);
    }
}

proof fn other_objects(doc: PdfDocument, spaces: Entries, name: Seq<char>)
    requires
        governing(spaces, name) matches Some(o) && !(o is Array) && !(o is Name),
    ensures
        resolve_space(doc, name, spaces, spaces.len()) == Space::Unknown,
{
    space_words();
    assert(device_space(name) is Some <==> cmyk_name(name) || rgb_name(name) || gray_name(name));
    reveal_with_fuel(resolve_space, 2);
}

/// Are the spaces of all colours ones that the operators name?
spec fn stack_named(ops: Seq<Operator>, stack: Seq<Colors>) -> bool {
    forall|i: int|
        0 <= i < stack.len() ==> space_named(ops, (#[trigger] stack[i]).fill.space) && space_named(
            ops,
            stack[i].stroke.space,
        )
}

/// Could the operators put each of the inks on its plate?
spec fn all_may_ink(spaces: Entries, ops: Seq<Operator>, found: Seq<Seq<char>>) -> bool {
    forall|ink: Seq<char>| #[trigger] found.contains(ink) && ink.len() > 0 ==> ops_may_ink(spaces, ops, ink)
}

proof fn paint_may_ink(doc: PdfDocument, spaces: Entries, ops: Seq<Operator>, c: Colors, found: Seq<Seq<char>>)
    requires
        space_named(ops, c.fill.space),
        space_named(ops, c.stroke.space),
        all_may_ink(spaces, ops, found),
    ensures
        all_may_ink(spaces, ops, add_colors(doc, spaces, c, found)),
{
    let all = add_colors(doc, spaces, c, found);
    let mid = add_paint(doc, spaces, c.fill, found);
    let fill = space_inks(resolve_space(doc, c.fill.space, spaces, spaces.len()));
    let stroke = space_inks(resolve_space(doc, c.stroke.space, spaces, spaces.len()));
    assert forall|ink: Seq<char>| #[trigger] all.contains(ink) && ink.len() > 0 implies ops_may_ink(spaces, ops, ink) by {
        only_named(mid, stroke, stroke.len(), ink);
        if mid.contains(ink) {
            only_named(found, fill, fill.len(), ink);
            if !found.contains(ink) {
                assert(fill.contains(ink));
                inks_of_space(doc, spaces, c.fill.space, ink);
            }
        } else {
            assert(stroke.contains(ink));
            inks_of_space(doc, spaces, c.stroke.space, ink);
        }
    }
}

proof fn scan_may_ink(
    doc: PdfDocument,
    ops: Seq<Operator>,
    i: nat,
    resources: Obj,
    spaces: Entries,
    w: Walk,
    found: Seq<Seq<char>>,
)
    requires
        w.stack.len() > 0,
        forall|j: int| 0 <= j < ops.len() ==> !((#[trigger] ops[j]) is Do),
        stack_named(ops, w.stack),
        all_may_ink(spaces, ops, found),
    ensures
        scan_ops(doc, Set::empty(), ops, i, resources, spaces, w, found) matches Ok(all) ==> all_may_ink(
            spaces,
            ops,
            all,
        ),
    decreases ops.len() - i,
{
    if i < ops.len() {
        let op = ops[i as int];
        let next = walk_op(doc, spaces, w, op);
        let mid = add_process(op, found);
        assert(all_may_ink(spaces, ops, mid)) by {
            assert forall|ink: Seq<char>| #[trigger] mid.contains(ink) && ink.len() > 0 implies ops_may_ink(
                spaces,
                ops,
                ink,
            ) by {
                process_list(ink);
                if op is SetFillCmyk || op is SetStrokeCmyk {
                    only_named(found, process_inks(), 4, ink);
                    if !found.contains(ink) {
                        assert(sets_process(ops));
                    }
                }
            }
        }
        assert(stack_named(ops, next.stack)) by {
            assert forall|j: int| 0 <= j < next.stack.len() implies space_named(ops, (#[trigger] next.stack[j]).fill.space)
                && space_named(ops, next.stack[j].stroke.space) by {
                let top = w.stack.last();
                assert(space_named(ops, w.stack[w.stack.len() - 1].fill.space));
                if j < w.stack.len() {
                    assert(space_named(ops, w.stack[j].fill.space));
                }
            }
        }
        assert(next.stack[next.stack.len() - 1] == next.stack.last());
        paint_may_ink(doc, spaces, ops, next.stack.last(), mid);
        let more = add_colors(doc, spaces, next.stack.last(), mid);
        scan_may_ink(doc, ops, i + 1, resources, spaces, next, more);
    }
}

/// Only inks that the content could put on their plates are found: each ink that is found, in content
/// that draws no form, is a spot ink of a space that an operator sets a colour in, a process ink of such
/// a space, or a process ink where a process colour is set.
pub proof fn only_usable_inks_are_found(doc: PdfDocument, page: SourcePage, ink: Seq<char>)
    requires
        page.content is Operators,
        forall|j: int| 0 <= j < page.content.operators().len() ==> !((#[trigger] page.content.operators()[j]) is Do),
        referenced_inks(doc, page) is Ok,
        referenced_inks(doc, page)->Ok_0.contains(ink),
        ink.len() > 0,
    ensures
        ops_may_ink(page_spaces(doc, page), page.content.operators(), ink),
{
    let spaces = page_spaces(doc, page);
    let ops = page.content.operators();
    let none: Seq<Seq<char>> = Seq::empty();
    let c = initial_colors();
    assert(all_may_ink(spaces, ops, none));
    paint_may_ink(doc, spaces, ops, c, none);
    let w = page_start();
    assert(w.stack[0] == c);
    scan_may_ink(doc, ops, 0, page.resources@, spaces, w, add_colors(doc, spaces, c, none));
}

proof fn scan_finds(
    doc: PdfDocument,
    ops: Seq<Operator>,
    i: nat,
    resources: Obj,
    spaces: Entries,
    w: Walk,
    found: Seq<Seq<char>>,
    k: int,
    name: Seq<char>,
    ink: Seq<char>,
)
    requires
        i <= k < ops.len(),
        found.no_duplicates(),
        enters(ops[k], name) && space_inks(resolve_space(doc, name, spaces, spaces.len())).contains(ink) || (
        ops[k] is SetFillCmyk || ops[k] is SetStrokeCmyk) && is_process(ink),
    ensures
        scan_ops(doc, Set::empty(), ops, i, resources, spaces, w, found) matches Ok(all) ==> all.contains(ink),
    decreases ops.len() - i,
{
    let op = ops[i as int];
    if op is Do {
        form_only_adds(doc, Set::empty(), op->Do_name@, resources, spaces, w.stack.last(), found);
        if let Ok(more) = scan_form(doc, Set::empty(), op->Do_name@, resources, spaces, w.stack.last(), found) {
            scan_finds(doc, ops, i + 1, resources, spaces, w, more, k, name, ink);
        }
    } else {
        let next = walk_op(doc, spaces, w, op);
        let mid = add_process(op, found);
        let more = add_colors(doc, spaces, next.stack.last(), mid);
        process_added(op, found);
        colors_added(doc, spaces, next.stack.last(), mid);
        if i == k {
            process_list(ink);
            extended_contains(mid, more);
            if enters(op, name) {
                assert(next.stack.last().fill.space == name || next.stack.last().stroke.space == name);
            }
            assert(more.contains(ink));
            scan_only_adds(doc, Set::empty(), ops, i + 1, resources, spaces, next, more);
            if let Ok(all) = scan_ops(doc, Set::empty(), ops, i + 1, resources, spaces, next, more) {
                extended_contains(more, all);
            }
        } else {
            scan_finds(doc, ops, i + 1, resources, spaces, next, more, k, name, ink);
        }
    }
}

/// The inks of a space that content enters are found: a spot ink of its own, and each of several.
pub proof fn inks_of_entered_spaces_are_found(
    doc: PdfDocument,
    page: SourcePage,
    k: int,
    name: Seq<char>,
    o: Obj,
    ink: Seq<char>,
)
    requires
        page.content is Operators,
        referenced_inks(doc, page) is Ok,
        0 <= k < page.content.operators().len(),
        enters(page.content.operators()[k], name),
        governing(page_spaces(doc, page), name) == Some(o),
        is_separation(o, ink) || (o matches Obj::Array(a) && a.len() > 1 && a[0] == Obj::Name("DeviceN"@) && (
        a[1] matches Obj::Array(items) && items.contains(Obj::Name(ink)))),
    ensures
        referenced_inks(doc, page)->Ok_0.contains(ink),
{
    let spaces = page_spaces(doc, page);
    let ops = page.content.operators();
    let none: Seq<Seq<char>> = Seq::empty();
    space_words();
    governed(doc, spaces, name);
    let a = o->Array_0;
    if let Obj::Array(items) = a[1] {
        named_item(items, ink);
    }
    assert(seq![ink][0] == ink);
    colors_added(doc, spaces, initial_colors(), none);
    scan_finds(
        doc,
        ops,
        0,
        page.resources@,
        spaces,
        page_start(),
        add_colors(doc, spaces, initial_colors(), none),
        k,
        name,
        ink,
    );
}

/// The four process inks are found wherever content sets a process colour.
pub proof fn process_inks_are_found(doc: PdfDocument, page: SourcePage, k: int, ink: Seq<char>)
    requires
        page.content is Operators,
        referenced_inks(doc, page) is Ok,
        0 <= k < page.content.operators().len(),
        page.content.operators()[k] is SetFillCmyk || page.content.operators()[k] is SetStrokeCmyk,
        ink == "Cyan"@ || ink == "Magenta"@ || ink == "Yellow"@ || ink == "Black"@,
    ensures
        referenced_inks(doc, page)->Ok_0.contains(ink),
{
    let spaces = page_spaces(doc, page);
    let c = initial_colors();
    let none: Seq<Seq<char>> = Seq::empty();
    colors_added(doc, spaces, c, none);
    scan_finds(
        doc,
        page.content.operators(),
        0,
        page.resources@,
        spaces,
        page_start(),
        add_colors(doc, spaces, c, none),
        k,
        ink,
        ink,
    );
}

} // verus!
