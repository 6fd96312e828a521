//! Why the plate of an ink that could not appear on a page can be left empty.
//!
//! The inks that could appear are found by going through the content in the order in which it is
//! painted, each form where it is drawn, and taking those of every colour that becomes current.

use vstd::prelude::*;
use crate::document::{unseen, unseen_decreases, Failure, Operator, PdfDocument, SourcePage, TextElement};
use crate::object::{Entries, Obj};
use super::color::{initial_colors, other_inks_untouched, Colors};
use super::inks::{
    add_colors, add_names_keeps, add_paint, add_process, named_form, open_form, page_operators,
    process_inks, referenced_inks, scan_form, scan_ops, space_inks,
};
use super::plate_commands;
use super::route::{
    commands_of, draw, form_matrix, form_start, named_form_found, page_start, route_op, route_ops, run_commands,
    text_commands, walk_op, Command, Setting, Walk,
};
use super::spaces::{color_spaces, resolve_space};

verus! {

/// Does a command put no ink on the plate?
pub open spec fn inkless(c: Command) -> bool {
    match c {
        Command::Paint { fill, stroke, .. } => fill is None && stroke is None,
        Command::Show { tint, .. } => tint is None,
        _ => true,
    }
}

/// Do all commands put no ink on the plate?
pub open spec fn all_inkless(list: Seq<Command>) -> bool {
    forall|i: int| 0 <= i < list.len() ==> inkless(#[trigger] list[i])
}

/// Does the list hold the inks of the spaces of both colours?
pub open spec fn covers(doc: PdfDocument, spaces: Entries, c: Colors, list: Seq<Seq<char>>) -> bool {
    forall|n: Seq<char>|
        space_inks(resolve_space(doc, c.fill.space, spaces, spaces.len())).contains(n) || space_inks(
            resolve_space(doc, c.stroke.space, spaces, spaces.len()),
        ).contains(n) ==> #[trigger] list.contains(n)
}

/// Does the list hold the inks of all current and saved colours?
pub open spec fn covers_all(doc: PdfDocument, spaces: Entries, stack: Seq<Colors>, list: Seq<Seq<char>>) -> bool {
    forall|i: int| 0 <= i < stack.len() ==> covers(doc, spaces, #[trigger] stack[i], list)
}

/// Is `b` the list `a` with names at its end, none of them twice?
pub open spec fn extended(a: Seq<Seq<char>>, b: Seq<Seq<char>>) -> bool {
    &&& b.no_duplicates()
    &&& a.len() <= b.len()
    &&& forall|j: int| 0 <= j < a.len() ==> b[j] == #[trigger] a[j]
}

proof fn extended_trans(a: Seq<Seq<char>>, b: Seq<Seq<char>>, c: Seq<Seq<char>>)
    requires
        extended(a, b),
        extended(b, c),
    ensures
        extended(a, c),
{
    assert forall|j: int| 0 <= j < a.len() implies c[j] == #[trigger] a[j] by {
        assert(b[j] == a[j]);
    }
}

/// What a list holds its extension holds.
pub proof fn extended_contains(a: Seq<Seq<char>>, b: Seq<Seq<char>>)
    requires
        extended(a, b),
    ensures
        forall|n: Seq<char>| a.contains(n) ==> #[trigger] b.contains(n),
{
    assert forall|n: Seq<char>| a.contains(n) implies #[trigger] b.contains(n) by {
        let j = choose|j: int| 0 <= j < a.len() && a[j] == n;
        assert(b[j] == n);
    }
}

proof fn covers_more(doc: PdfDocument, spaces: Entries, stack: Seq<Colors>, a: Seq<Seq<char>>, b: Seq<Seq<char>>)
    requires
        covers_all(doc, spaces, stack, a),
        extended(a, b),
    ensures
        covers_all(doc, spaces, stack, b),
{
    extended_contains(a, b);
    assert forall|i: int| 0 <= i < stack.len() implies covers(doc, spaces, #[trigger] stack[i], b) by {
        assert(covers(doc, spaces, stack[i], a));
    }
}

/// The inks of the current colours are added.
pub proof fn colors_added(doc: PdfDocument, spaces: Entries, c: Colors, list: Seq<Seq<char>>)
    requires
        list.no_duplicates(),
    ensures
        extended(list, add_colors(doc, spaces, c, list)),
        covers(doc, spaces, c, add_colors(doc, spaces, c, list)),
{
    let fill = space_inks(resolve_space(doc, c.fill.space, spaces, spaces.len()));
    let stroke = space_inks(resolve_space(doc, c.stroke.space, spaces, spaces.len()));
    let mid = add_paint(doc, spaces, c.fill, list);
    let all = add_colors(doc, spaces, c, list);
    add_names_keeps(list, fill, fill.len());
    add_names_keeps(mid, stroke, stroke.len());
    assert(extended(list, mid));
    assert(extended(mid, all));
    extended_trans(list, mid, all);
    extended_contains(mid, all);
    assert forall|n: Seq<char>| fill.contains(n) || stroke.contains(n) implies #[trigger] all.contains(n) by {
        if fill.contains(n) {
            let j = choose|j: int| 0 <= j < fill.len() && fill[j] == n;
            assert(mid.contains(fill[j]));
        } else {
            let j = choose|j: int| 0 <= j < stroke.len() && stroke[j] == n;
            assert(all.contains(stroke[j]));
        }
    }
}

/// The process inks are added behind those found.
pub proof fn process_added(op: Operator, list: Seq<Seq<char>>)
    requires
        list.no_duplicates(),
    ensures
        extended(list, add_process(op, list)),
        op is SetFillCmyk || op is SetStrokeCmyk ==> forall|n: Seq<char>|
            process_inks().contains(n) ==> #[trigger] add_process(op, list).contains(n),
{
    if op is SetFillCmyk || op is SetStrokeCmyk {
        add_names_keeps(list, process_inks(), 4);
    }
}

/// Going through operators only adds inks at the end of those that were found, and none twice.
pub proof fn scan_only_adds(
    doc: PdfDocument,
    active: Set<usize>,
    ops: Seq<Operator>,
    i: nat,
    resources: Obj,
    spaces: Entries,
    w: Walk,
    found: Seq<Seq<char>>,
)
    requires
        found.no_duplicates(),
    ensures
        scan_ops(doc, active, ops, i, resources, spaces, w, found) matches Ok(all) ==> extended(found, all),
    decreases unseen(doc, active), 1nat, ops.len() - i,
{
    if i < ops.len() {
        let op = ops[i as int];
        if op is Do {
            let start = w.stack.last();
            let name = op->Do_name@;
            form_only_adds(doc, active, name, resources, spaces, start, found);
            if let Ok(more) = scan_form(doc, active, name, resources, spaces, start, found) {
                scan_only_adds(doc, active, ops, i + 1, resources, spaces, w, more);
                if let Ok(all) = scan_ops(doc, active, ops, i + 1, resources, spaces, w, more) {
                    extended_trans(found, more, all);
                }
            }
        } else {
            let next = walk_op(doc, spaces, w, op);
            let mid = add_process(op, found);
            let more = add_colors(doc, spaces, next.stack.last(), mid);
            process_added(op, found);
            colors_added(doc, spaces, next.stack.last(), mid);
            extended_trans(found, mid, more);
            scan_only_adds(doc, active, ops, i + 1, resources, spaces, next, more);
            if let Ok(all) = scan_ops(doc, active, ops, i + 1, resources, spaces, next, more) {
                extended_trans(found, more, all);
            }
        }
    }
}

/// Going through a form only adds inks.
pub proof fn form_only_adds(
    doc: PdfDocument,
    active: Set<usize>,
    name: Seq<char>,
    resources: Obj,
    spaces: Entries,
    start: Colors,
    found: Seq<Seq<char>>,
)
    requires
        found.no_duplicates(),
    ensures
        scan_form(doc, active, name, resources, spaces, start, found) matches Ok(all) ==> extended(found, all),
    decreases unseen(doc, active), 0nat, 0nat,
{
    if let Some(form) = named_form(doc, resources, name) {
        if !(form.0 is Some && active.contains(form.0->0 as usize)) {
            if let Ok((content, inner, inner_spaces)) = open_form(doc, form, resources, spaces) {
                if content is Operators && form.0 is Some {
                    named_form_found(doc, resources, name);
                    unseen_decreases(doc, active, form.0->0 as usize);
                    let more = add_colors(doc, inner_spaces, start, found);
                    colors_added(doc, inner_spaces, start, found);
                    let now = active.insert(form.0->0 as usize);
                    let ops = content.operators();
                    scan_only_adds(doc, now, ops, 0, inner, inner_spaces, form_start(start), more);
                    if let Ok(all) = scan_ops(doc, now, ops, 0, inner, inner_spaces, form_start(start), more) {
                        extended_trans(found, more, all);
                    }
                }
            }
        }
    }
}

proof fn text_inkless(op: Operator)
    ensures
        all_inkless(text_commands(op, None)),
{
    if let Operator::TJ { array } = op {
        run_inkless(array@, array@.len());
    }
}

proof fn run_inkless(array: Seq<TextElement>, k: nat)
    requires
        k <= array.len(),
    ensures
        all_inkless(run_commands(array, None, k)),
    decreases k,
{
    if k > 0 {
        run_inkless(array, (k - 1) as nat);
    }
}

proof fn step_inkless(set: Setting, w: Walk, op: Operator, found: Seq<Seq<char>>)
    requires
        w.stack.len() > 0,
        covers_all(set.doc, set.spaces, w.stack, found),
        !found.contains(set.ink),
    ensures
        all_inkless(commands_of(set, w, op)),
{
    let c = w.stack[w.stack.len() - 1];
    assert(c == w.stack.last());
    assert(covers(set.doc, set.spaces, c, found));
    other_inks_untouched(set.doc, set.spaces, c.fill, set.ink);
    other_inks_untouched(set.doc, set.spaces, c.stroke, set.ink);
    text_inkless(op);
}

proof fn route_inkless(
    set: Setting,
    active: Set<usize>,
    ops: Seq<Operator>,
    i: nat,
    w: Walk,
    out: Seq<Command>,
    found: Seq<Seq<char>>,
)
    requires
        w.stack.len() > 0,
        found.no_duplicates(),
        covers_all(set.doc, set.spaces, w.stack, found),
        all_inkless(out),
        ({
            let all = scan_ops(set.doc, active, ops, i, set.resources, set.spaces, w, found);
            all is Ok && !all->Ok_0.contains(set.ink)
        }),
    ensures
        route_ops(set, active, ops, i, w, out) matches Ok(r) ==> all_inkless(r.1),
    decreases unseen(set.doc, active), 2nat, ops.len() - i,
{
    let all = scan_ops(set.doc, active, ops, i, set.resources, set.spaces, w, found)->Ok_0;
    scan_only_adds(set.doc, active, ops, i, set.resources, set.spaces, w, found);
    extended_contains(found, all);
    if i < ops.len() {
        let op = ops[i as int];
        if op is Do {
            let name = op->Do_name@;
            let start = w.stack[w.stack.len() - 1];
            assert(start == w.stack.last());
            let more = scan_form(set.doc, active, name, set.resources, set.spaces, start, found)->Ok_0;
            form_only_adds(set.doc, active, name, set.resources, set.spaces, start, found);
            scan_only_adds(set.doc, active, ops, i + 1, set.resources, set.spaces, w, more);
            extended_contains(more, all);
            draw_inkless(set, active, name, start, out, found);
            assert(route_op(set, active, op, w, out) == (match draw(set, active, name, start, out) {
                Err(e) => Err::<(Walk, Seq<Command>), Failure>(e),
                Ok(list) => Ok((w, list)),
            }));
            if let Ok(list) = draw(set, active, name, start, out) {
                covers_more(set.doc, set.spaces, w.stack, found, more);
                route_inkless(set, active, ops, i + 1, w, list, more);
            }
        } else {
            step_inkless(set, w, op, found);
            let next = walk_op(set.doc, set.spaces, w, op);
            let mid = add_process(op, found);
            let more = add_colors(set.doc, set.spaces, next.stack.last(), mid);
            process_added(op, found);
            colors_added(set.doc, set.spaces, next.stack.last(), mid);
            extended_trans(found, mid, more);
            covers_more(set.doc, set.spaces, w.stack, found, more);
            assert forall|j: int| 0 <= j < next.stack.len() implies covers(
                set.doc,
                set.spaces,
                #[trigger] next.stack[j],
                more,
            ) by {
                if j < next.stack.len() - 1 {
                    assert(next.stack[j] == w.stack[j]);
                }
            }
            let list = out + commands_of(set, w, op);
            assert forall|j: int| 0 <= j < list.len() implies inkless(#[trigger] list[j]) by {
                if j >= out.len() {
                    assert(list[j] == commands_of(set, w, op)[j - out.len()]);
                }
            }
            assert(route_op(set, active, op, w, out) == Ok::<(Walk, Seq<Command>), Failure>((next, list)));
            route_inkless(set, active, ops, i + 1, next, list, more);
        }
    }
}

proof fn draw_inkless(
    set: Setting,
    active: Set<usize>,
    name: Seq<char>,
    start: Colors,
    out: Seq<Command>,
    found: Seq<Seq<char>>,
)
    requires
        found.no_duplicates(),
        all_inkless(out),
        ({
            let all = scan_form(set.doc, active, name, set.resources, set.spaces, start, found);
            all is Ok && !all->Ok_0.contains(set.ink)
        }),
    ensures
        draw(set, active, name, start, out) matches Ok(list) ==> all_inkless(list),
    decreases unseen(set.doc, active), 0nat, 0nat,
{
    if let Some(form) = named_form(set.doc, set.resources, name) {
        if !(form.0 is Some && active.contains(form.0->0 as usize)) {
            if let Ok((content, resources, spaces)) = open_form(set.doc, form, set.resources, set.spaces) {
                if content is Operators && form.0 is Some {
                    let inner = Setting { resources, spaces, ..set };
                    named_form_found(set.doc, set.resources, name);
                    unseen_decreases(set.doc, active, form.0->0 as usize);
                    let w = form_start(start);
                    let more = add_colors(set.doc, spaces, start, found);
                    colors_added(set.doc, spaces, start, found);
                    assert(covers_all(set.doc, spaces, w.stack, more)) by {
                        assert(w.stack[0].fill == start.fill && w.stack[0].stroke == start.stroke);
                        assert(covers(set.doc, spaces, w.stack[0], more));
                    }
                    let begun = out.push(Command::BeginForm(form_matrix(form.1)));
                    route_inkless(
                        inner,
                        active.insert(form.0->0 as usize),
                        content.operators(),
                        0,
                        w,
                        begun,
                        more,
                    );
                }
            }
        }
    }
}

/// The plate of an ink that could not appear on a page stays empty when it is painted, so it need
/// not be: no command puts ink on it.
pub proof fn unused_ink_not_painted(doc: PdfDocument, page: SourcePage, ink: Seq<char>)
    requires
        referenced_inks(doc, page) is Ok,
        !referenced_inks(doc, page)->Ok_0.contains(ink),
    ensures
        plate_commands(doc, page, ink) matches Ok(list) ==> all_inkless(list),
{
    let spaces = color_spaces(doc, page.resources@)->Ok_0;
    let set = Setting { doc, ink, resources: page.resources@, spaces };
    let w = page_start();
    let none: Seq<Seq<char>> = Seq::empty();
    let first = add_colors(doc, spaces, initial_colors(), none);
    colors_added(doc, spaces, initial_colors(), none);
    assert(covers_all(doc, spaces, w.stack, first)) by {
        assert(w.stack[0] == initial_colors());
    }
    route_inkless(set, Set::empty(), page_operators(page)->Ok_0, 0, w, Seq::empty(), first);
}

} // verus!
