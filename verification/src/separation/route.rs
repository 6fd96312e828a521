//! Going through content for one ink: what of it is painted on the ink's plate, and with what tint.
//!
//! The result is a list of commands in the order of painting. Whoever carries them out keeps the
//! current path, the clip, the matrices and the line and text parameters; which colour is current,
//! which forms are drawn and whether text shows are decided here.
//!
//! Images, shadings, patterns and annotations are not painted.

use std::collections::HashSet;
use vstd::prelude::*;
use crate::document::{
    resolve, unseen, unseen_decreases, Error, Failure, Operator, PdfDocument, Scalar, TextElement,
};
use crate::object::{array_view, dict_get, obj_dict, views, Dict, Entries, Obj, Object};
use super::color::{initial_colors, recolor, tint, tint_for_ink, ColorState, Colors};
use super::inks::{find_form, named_form, open_form, open_form_ref};

verus! {

/// A step of painting a plate.
#[derive(Debug)]
pub enum PlateCommand<'a> {
    /// Change the graphics state, the text state or the current path as the operator says.
    State(&'a Operator),
    /// Apply the pending clip, fill and stroke the current path with the given tints, and clear it.
    Paint { fill: Option<Scalar>, stroke: Option<Scalar>, even_odd: bool },
    /// Show text with the given tint and move on past it; without a tint only move on.
    Show { text: &'a Vec<u8>, tint: Option<Scalar> },
    /// Begin a run of texts and shifts.
    BeginRun,
    /// Shift what follows back by thousandths of the font size.
    Shift(Scalar),
    /// End the run, and move on once more by as much as the run moved on.
    EndRun,
    /// Go to the start of the next line.
    NextLine,
    /// Set the spacing of words and characters.
    Spacing { word_space: Scalar, char_space: Scalar },
    /// Apply a graphics state dictionary; that with no entries where there is none.
    ExtGState(Option<&'a Object>),
    /// Begin a form that is drawn through a matrix of six numbers.
    BeginForm(Vec<Object>),
    /// End the form.
    EndForm,
}

/// The value of a command.
pub enum Command {
    State(Operator),
    Paint { fill: Option<Scalar>, stroke: Option<Scalar>, even_odd: bool },
    Show { text: Seq<u8>, tint: Option<Scalar> },
    BeginRun,
    Shift(Scalar),
    EndRun,
    NextLine,
    Spacing { word_space: Scalar, char_space: Scalar },
    ExtGState(Option<Obj>),
    BeginForm(Seq<Obj>),
    EndForm,
}

impl<'a> View for PlateCommand<'a> {
    type V = Command;

    open spec fn view(&self) -> Command {
        match self {
            PlateCommand::State(op) => Command::State(**op),
            PlateCommand::Paint { fill, stroke, even_odd } => Command::Paint {
                fill: *fill,
                stroke: *stroke,
                even_odd: *even_odd,
            },
            PlateCommand::Show { text, tint } => Command::Show { text: text@, tint: *tint },
            PlateCommand::BeginRun => Command::BeginRun,
            PlateCommand::Shift(offset) => Command::Shift(*offset),
            PlateCommand::EndRun => Command::EndRun,
            PlateCommand::NextLine => Command::NextLine,
            PlateCommand::Spacing { word_space, char_space } => Command::Spacing {
                word_space: *word_space,
                char_space: *char_space,
            },
            PlateCommand::ExtGState(o) => Command::ExtGState(
                match o {
                    Some(o) => Some(o@),
                    None => None,
                },
            ),
            PlateCommand::BeginForm(m) => Command::BeginForm(views(m@)),
            PlateCommand::EndForm => Command::EndForm,
        }
    }
}

/// The values of commands.
pub open spec fn commands(s: Seq<PlateCommand>) -> Seq<Command> {
    s.map_values(|c: PlateCommand| c@)
}

/// Where going through content stands.
pub struct Walk {
    /// The current colours, and below them those that were saved.
    pub stack: Seq<Colors>,
    /// Inside a text object?
    pub in_text: bool,
}

/// The start of a page.
pub open spec fn page_start() -> Walk {
    Walk { stack: seq![initial_colors()], in_text: false }
}

/// The start of a form that is drawn while the given colours are current.
pub open spec fn form_start(start: Colors) -> Walk {
    Walk { stack: seq![Colors { render_mode: 0, ..start }], in_text: false }
}

/// What stays the same while content is gone through.
pub struct Setting {
    pub doc: PdfDocument,
    /// The ink of the plate.
    pub ink: Seq<char>,
    pub resources: Obj,
    pub spaces: Entries,
}

/// The tint of the current fill colour.
pub open spec fn fill_tint(set: Setting, w: Walk) -> Option<Scalar> {
    tint(set.doc, set.spaces, w.stack.last().fill, set.ink)
}

/// The tint of the current stroke colour.
pub open spec fn stroke_tint(set: Setting, w: Walk) -> Option<Scalar> {
    tint(set.doc, set.spaces, w.stack.last().stroke, set.ink)
}

/// The tint of text; none where it is invisible.
pub open spec fn text_tint(set: Setting, w: Walk) -> Option<Scalar> {
    if w.stack.last().render_mode == 3 {
        None
    } else {
        fill_tint(set, w)
    }
}

/// The graphics state dictionary of the given name.
pub open spec fn ext_state(doc: PdfDocument, resources: Obj, name: Seq<char>) -> Option<Obj> {
    match resources {
        Obj::Dictionary(d) => match dict_get(d, "ExtGState"@) {
            Some(o) => match resolve(doc, o) {
                Some(s) => match obj_dict(s) {
                    Some(states) => dict_get(states, name),
                    None => None,
                },
                None => None,
            },
            None => None,
        },
        _ => None,
    }
}

/// Is the object a number?
pub open spec fn is_number(o: Obj) -> bool {
    o is Integer || o is Real
}

/// The matrix of a form: six numbers, those of the identity where the form gives none.
pub open spec fn form_matrix(form: Entries) -> Seq<Obj> {
    Seq::new(
        6,
        |i: int|
            match dict_get(form, "Matrix"@) {
                Some(Obj::Array(a)) => if i < a.len() && is_number(a[i]) {
                    a[i]
                } else {
                    identity_entry(i)
                },
                _ => identity_entry(i),
            },
    )
}

/// The number at position `i` of the identity matrix.
pub open spec fn identity_entry(i: int) -> Obj {
    if i == 0 || i == 3 {
        Obj::Integer(1)
    } else {
        Obj::Integer(0)
    }
}

/// What an operator other than the drawing of a form does to the walk.
pub open spec fn walk_op(doc: PdfDocument, spaces: Entries, w: Walk, op: Operator) -> Walk {
    match op {
        Operator::SaveState => Walk { stack: w.stack.push(w.stack.last()), ..w },
        Operator::RestoreState => if w.stack.len() > 1 {
            Walk { stack: w.stack.drop_last(), ..w }
        } else {
            w
        },
        Operator::BeginText => Walk { in_text: true, ..w },
        Operator::EndText => Walk { in_text: false, ..w },
        _ => Walk {
            stack: w.stack.drop_last().push(recolor(doc, spaces, w.stack.last(), op)),
            ..w
        },
    }
}

/// The commands for the first `k` pieces of a text-showing array.
pub open spec fn run_commands(array: Seq<TextElement>, tint: Option<Scalar>, k: nat) -> Seq<Command>
    decreases k,
{
    if k == 0 {
        seq![Command::BeginRun]
    } else {
        run_commands(array, tint, (k - 1) as nat).push(
            match array[k - 1] {
                TextElement::String(text) => Command::Show { text: text@, tint },
                TextElement::Offset(offset) => Command::Shift(offset),
            },
        )
    }
}

/// The commands that an operator that shows text gives.
pub open spec fn text_commands(op: Operator, tint: Option<Scalar>) -> Seq<Command> {
    match op {
        Operator::Tj { text } => seq![Command::Show { text: text@, tint }],
        Operator::TJ { array } => run_commands(array@, tint, array@.len()).push(Command::EndRun),
        Operator::Quote { text } => seq![Command::NextLine, Command::Show { text: text@, tint }],
        Operator::DoubleQuote { word_space, char_space, text } => seq![
            Command::Spacing { word_space, char_space },
            Command::NextLine,
            Command::Show { text: text@, tint },
        ],
        _ => Seq::empty(),
    }
}

/// The commands that an operator other than the drawing of a form gives. Text is placed and shown
/// inside a text object only.
pub open spec fn commands_of(set: Setting, w: Walk, op: Operator) -> Seq<Command> {
    match op {
        Operator::Stroke => seq![
            Command::Paint { fill: None, stroke: stroke_tint(set, w), even_odd: false },
        ],
        Operator::Fill => seq![Command::Paint { fill: fill_tint(set, w), stroke: None, even_odd: false }],
        Operator::FillEvenOdd => seq![
            Command::Paint { fill: fill_tint(set, w), stroke: None, even_odd: true },
        ],
        Operator::FillStroke | Operator::CloseFillStroke => seq![
            Command::Paint { fill: fill_tint(set, w), stroke: stroke_tint(set, w), even_odd: false },
        ],
        Operator::FillStrokeEvenOdd | Operator::CloseFillStrokeEvenOdd => seq![
            Command::Paint { fill: fill_tint(set, w), stroke: stroke_tint(set, w), even_odd: true },
        ],
        Operator::EndPath => seq![Command::Paint { fill: None, stroke: None, even_odd: false }],
        Operator::Tj { .. } | Operator::TJ { .. } | Operator::Quote { .. } | Operator::DoubleQuote { .. } => if w.in_text {
            text_commands(op, text_tint(set, w))
        } else {
            Seq::empty()
        },
        Operator::TStar => if w.in_text {
            seq![Command::NextLine]
        } else {
            Seq::empty()
        },
        Operator::Td { .. } | Operator::TD { .. } | Operator::Tm { .. } => if w.in_text {
            seq![Command::State(op)]
        } else {
            Seq::empty()
        },
        Operator::SetExtGState { dict_name } => seq![
            Command::ExtGState(ext_state(set.doc, set.resources, dict_name@)),
        ],
        Operator::EndText
        | Operator::Do { .. }
        | Operator::PaintShading { .. }
        | Operator::BeginMarkedContentDict { .. }
        | Operator::Other => Seq::empty(),
        _ => seq![Command::State(op)],
    }
}

/// A form with a number is found in the document.
pub proof fn named_form_found(doc: PdfDocument, resources: Obj, name: Seq<char>)
    ensures
        match named_form(doc, resources, name) {
            Some((Some(id), _)) => doc.lookup(id) is Some && id <= usize::MAX,
            _ => true,
        },
{
    doc.ids_finite();
}

/// Draw the form of the given name, from the colours `start` on. The forms in `active` are being
/// drawn; such a form is not drawn again inside itself.
pub open spec fn draw(
    set: Setting,
    active: Set<usize>,
    name: Seq<char>,
    start: Colors,
    out: Seq<Command>,
) -> Result<Seq<Command>, Failure>
    decreases unseen(set.doc, active), 0nat, 0nat,
{
    match named_form(set.doc, set.resources, name) {
        None => Ok(out),
        Some(form) => if form.0 is Some && active.contains(form.0->0 as usize) {
            Ok(out)
        } else {
            match open_form(set.doc, form, set.resources, set.spaces) {
                Err(e) => Err(e),
                Ok((content, resources, spaces)) => if content is Operators && form.0 is Some {
                    proof {
                        named_form_found(set.doc, set.resources, name);
                        unseen_decreases(set.doc, active, form.0->0 as usize);
                    }
                    match route_ops(
                        Setting { resources, spaces, ..set },
                        active.insert(form.0->0 as usize),
                        content.operators(),
                        0,
                        form_start(start),
                        out.push(Command::BeginForm(form_matrix(form.1))),
                    ) {
                        Err(e) => Err(e),
                        Ok((_, inner)) => Ok(inner.push(Command::EndForm)),
                    }
                } else {
                    Err(Failure::UnparsableContent)
                },
            }
        },
    }
}

/// Go through one operator. A form starts with the colours that are current where it is drawn.
pub open spec fn route_op(set: Setting, active: Set<usize>, op: Operator, w: Walk, out: Seq<Command>) -> Result<
    (Walk, Seq<Command>),
    Failure,
>
    decreases unseen(set.doc, active), 1nat, 0nat,
{
    match op {
        Operator::Do { name } => match draw(set, active, name@, w.stack.last(), out) {
            Err(e) => Err(e),
            Ok(inner) => Ok((w, inner)),
        },
        _ => Ok(
            (
                walk_op(set.doc, set.spaces, w, op),
                out + commands_of(set, w, op),
            ),
        ),
    }
}

/// Go through the operators from position `i` on.
pub open spec fn route_ops(
    set: Setting,
    active: Set<usize>,
    ops: Seq<Operator>,
    i: nat,
    w: Walk,
    out: Seq<Command>,
) -> Result<(Walk, Seq<Command>), Failure>
    decreases unseen(set.doc, active), 2nat, ops.len() - i,
{
    if i >= ops.len() {
        Ok((w, out))
    } else {
        match route_op(set, active, ops[i as int], w, out) {
            Err(e) => Err(e),
            Ok((next, more)) => route_ops(set, active, ops, i + 1, next, more),
        }
    }
}

/// Saving and restoring the graphics state leaves the colours as they were, whatever colours are
/// set in between.
pub proof fn save_restore_keeps_colors(set: Setting, w: Walk, changes: Seq<Operator>)
    requires
        w.stack.len() > 0,
        forall|i: int|
            0 <= i < changes.len() ==> !(#[trigger] changes[i] is SaveState) && !(changes[i] is RestoreState)
                && !(changes[i] is BeginText) && !(changes[i] is EndText) && !(changes[i] is Do),
    ensures
        ({
            let saved = walk_op(set.doc, set.spaces, w, Operator::SaveState);
            let changed = walk_all(set, saved, changes, changes.len());
            walk_op(set.doc, set.spaces, changed, Operator::RestoreState) == w
        }),
{
    let saved = walk_op(set.doc, set.spaces, w, Operator::SaveState);
    walk_all_keeps_below(set, saved, changes, changes.len());
    let changed = walk_all(set, saved, changes, changes.len());
    assert(changed.stack.drop_last() =~= w.stack);
}

/// The walk after the first `k` of the given operators.
pub open spec fn walk_all(set: Setting, w: Walk, ops: Seq<Operator>, k: nat) -> Walk
    decreases k,
{
    if k == 0 {
        w
    } else {
        walk_op(set.doc, set.spaces, walk_all(set, w, ops, (k - 1) as nat), ops[k - 1])
    }
}

proof fn walk_all_keeps_below(set: Setting, w: Walk, ops: Seq<Operator>, k: nat)
    requires
        w.stack.len() > 0,
        k <= ops.len(),
        forall|i: int|
            0 <= i < ops.len() ==> !(#[trigger] ops[i] is SaveState) && !(ops[i] is RestoreState)
                && !(ops[i] is BeginText) && !(ops[i] is EndText) && !(ops[i] is Do),
    ensures
        walk_all(set, w, ops, k).in_text == w.in_text,
        walk_all(set, w, ops, k).stack.len() == w.stack.len(),
        walk_all(set, w, ops, k).stack.drop_last() == w.stack.drop_last(),
    decreases k,
{
    if k > 0 {
        walk_all_keeps_below(set, w, ops, (k - 1) as nat);
        let before = walk_all(set, w, ops, (k - 1) as nat);
        let op = ops[k - 1];
        assert(walk_all(set, w, ops, k).stack.drop_last() =~= before.stack.drop_last());
    }
}

/// Going through content never empties the stack of colours.
pub proof fn walk_keeps_stack(set: Setting, w: Walk, op: Operator)
    requires
        w.stack.len() > 0,
    ensures
        walk_op(set.doc, set.spaces, w, op).stack.len() > 0,
{
}

/// The matrix of a form.
pub fn parse_form_matrix(form: &Dict) -> (r: Vec<Object>)
    ensures
        views(r@) == form_matrix(form@),
{
    broadcast use array_view;

    let none: Vec<Object> = Vec::new();
    let given: &Vec<Object> = match form.get("Matrix") {
        Some(Object::Array(a)) => a,
        _ => &none,
    };
    let mut out: Vec<Object> = Vec::new();
    let mut i: usize = 0;
    let ghost wanted = form_matrix(form@);
    let ghost items = views(given@);
    assert(views(none@) =~= Seq::empty());
    assert(items == (match dict_get(form@, "Matrix"@) {
        Some(Obj::Array(a)) => a,
        _ => Seq::empty(),
    }));
    assert(views(out@) =~= wanted.take(0));
    while i < 6
        invariant
            i <= 6,
            wanted == form_matrix(form@),
            items == views(given@),
            items == (match dict_get(form@, "Matrix"@) {
                Some(Obj::Array(a)) => a,
                _ => Seq::empty(),
            }),
            wanted.len() == 6,
            views(out@) == wanted.take(i as int),
        decreases 6 - i,
    {
        let ghost before = views(out@);
        let fallback = if i == 0 || i == 3 {
            Object::Integer(1)
        } else {
            Object::Integer(0)
        };
        let entry = if i < given.len() {
            assert(items[i as int] == given@[i as int]@);
            match &given[i] {
                Object::Integer(v) => Object::Integer(*v),
                Object::Real(t) => Object::Real(t.clone()),
                _ => fallback,
            }
        } else {
            fallback
        };
        proof {
            assert(items.len() == given@.len());
            if i < given@.len() {
                assert(items[i as int] == given@[i as int]@);
                assert(is_number(items[i as int]) ==> entry@ == items[i as int]);
                assert(!is_number(items[i as int]) ==> entry@ == identity_entry(i as int));
            } else {
                assert(entry@ == identity_entry(i as int));
            }
            assert(entry@ == wanted[i as int]);
        }
        out.push(entry);
        i += 1;
        assert(views(out@) =~= before.push(entry@));
        assert(wanted.take(i as int) =~= before.push(wanted[i - 1]));
    }
    assert(wanted.take(6) =~= wanted);
    out
}

fn find_ext_state<'a>(doc: &'a PdfDocument, resources: &'a Object, name: &str) -> (r: Option<&'a Object>)
    ensures
        match r {
            Some(o) => ext_state(*doc, resources@, name@) == Some(o@),
            None => ext_state(*doc, resources@, name@) is None,
        },
{
    match resources {
        Object::Dictionary(rd) => match rd.get("ExtGState") {
            Some(o) => match doc.resolve_object(o) {
                Ok(s) => match s.as_dict() {
                    Some(states) => states.get(name),
                    None => None,
                },
                Err(_) => None,
            },
            None => None,
        },
        _ => None,
    }
}

/// The values of a stack of colours.
pub open spec fn stack_view(stack: Seq<ColorState>) -> Seq<Colors> {
    stack.map_values(|c: ColorState| c@)
}

/// The content that is gone through, for one ink.
pub struct SeparationContext<'a> {
    pub doc: &'a PdfDocument,
    pub target_ink: &'a str,
    pub resources: &'a Object,
    pub spaces: &'a Dict,
}

impl<'a> SeparationContext<'a> {
    /// The setting that this is.
    pub open spec fn setting(&self) -> Setting {
        Setting {
            doc: *self.doc,
            ink: self.target_ink@,
            resources: self.resources@,
            spaces: self.spaces@,
        }
    }

    fn fill_tint(&self, colors: &ColorState) -> (r: Option<Scalar>)
        ensures
            r == tint(*self.doc, self.spaces@, colors@.fill, self.target_ink@),
    {
        tint_for_ink(&colors.fill, self.spaces, self.doc, self.target_ink)
    }

    fn stroke_tint(&self, colors: &ColorState) -> (r: Option<Scalar>)
        ensures
            r == tint(*self.doc, self.spaces@, colors@.stroke, self.target_ink@),
    {
        tint_for_ink(&colors.stroke, self.spaces, self.doc, self.target_ink)
    }
}

fn push_command<'a>(out: &mut Vec<PlateCommand<'a>>, c: PlateCommand<'a>)
    ensures
        commands(final(out)@) == commands(old(out)@).push(c@),
{
    out.push(c);
    assert(commands(out@) =~= commands(old(out)@).push(c@));
}

/// Append the commands of a text-showing array.
fn push_run<'a>(array: &'a Vec<TextElement>, tint: Option<Scalar>, out: &mut Vec<PlateCommand<'a>>)
    ensures
        commands(final(out)@) == commands(old(out)@) + run_commands(array@, tint, array@.len()).push(
            Command::EndRun,
        ),
{
    let ghost start = commands(out@);
    push_command(out, PlateCommand::BeginRun);
    let mut i: usize = 0;
    assert(commands(out@) =~= start + run_commands(array@, tint, 0));
    while i < array.len()
        invariant
            i <= array@.len(),
            commands(out@) == start + run_commands(array@, tint, i as nat),
        decreases array@.len() - i,
    {
        match &array[i] {
            TextElement::String(text) => push_command(out, PlateCommand::Show { text, tint }),
            TextElement::Offset(offset) => push_command(out, PlateCommand::Shift(*offset)),
        }
        i += 1;
        assert(commands(out@) =~= start + run_commands(array@, tint, i as nat));
    }
    push_command(out, PlateCommand::EndRun);
    assert(commands(out@) =~= start + run_commands(array@, tint, array@.len()).push(Command::EndRun));
}

/// Append the commands of an operator that shows text.
fn push_text<'a>(op: &'a Operator, tint: Option<Scalar>, out: &mut Vec<PlateCommand<'a>>)
    ensures
        commands(final(out)@) == commands(old(out)@) + text_commands(*op, tint),
{
    let ghost start = commands(out@);
    match op {
        Operator::Tj { text } => {
            push_command(out, PlateCommand::Show { text, tint });
        },
        Operator::TJ { array } => {
            push_run(array, tint, out);
        },
        Operator::Quote { text } => {
            push_command(out, PlateCommand::NextLine);
            push_command(out, PlateCommand::Show { text, tint });
        },
        Operator::DoubleQuote { word_space, char_space, text } => {
            push_command(
                out,
                PlateCommand::Spacing { word_space: *word_space, char_space: *char_space },
            );
            push_command(out, PlateCommand::NextLine);
            push_command(out, PlateCommand::Show { text, tint });
        },
        _ => {},
    }
    assert(commands(out@) =~= start + text_commands(*op, tint));
}

/// Append the commands of an operator other than the drawing of a form.
fn push_commands<'a>(
    ctx: &SeparationContext<'_>,
    doc: &'a PdfDocument,
    resources: &'a Object,
    colors: &ColorState,
    in_text: bool,
    op: &'a Operator,
    out: &mut Vec<PlateCommand<'a>>,
)
    requires
        doc == ctx.doc,
        resources@ == ctx.resources@,
    ensures
        forall|w: Walk|
            w.stack.len() > 0 && w.stack.last() == colors@ && w.in_text == in_text ==> commands(final(out)@)
                == commands(old(out)@) + #[trigger] commands_of(ctx.setting(), w, *op),
{
    let ghost start = commands(out@);
    assert(start + Seq::<Command>::empty() =~= start);
    assert(forall|c: Command| #[trigger] start.push(c) =~= start + seq![c]);
    match op {
        Operator::Stroke => {
            let stroke = ctx.stroke_tint(colors);
            push_command(out, PlateCommand::Paint { fill: None, stroke, even_odd: false });
        },
        Operator::Fill => {
            let fill = ctx.fill_tint(colors);
            push_command(out, PlateCommand::Paint { fill, stroke: None, even_odd: false });
        },
        Operator::FillEvenOdd => {
            let fill = ctx.fill_tint(colors);
            push_command(out, PlateCommand::Paint { fill, stroke: None, even_odd: true });
        },
        Operator::FillStroke | Operator::CloseFillStroke => {
            let fill = ctx.fill_tint(colors);
            let stroke = ctx.stroke_tint(colors);
            push_command(out, PlateCommand::Paint { fill, stroke, even_odd: false });
        },
        Operator::FillStrokeEvenOdd | Operator::CloseFillStrokeEvenOdd => {
            let fill = ctx.fill_tint(colors);
            let stroke = ctx.stroke_tint(colors);
            push_command(out, PlateCommand::Paint { fill, stroke, even_odd: true });
        },
        Operator::EndPath => {
            push_command(out, PlateCommand::Paint { fill: None, stroke: None, even_odd: false });
        },
        Operator::Tj { .. } | Operator::TJ { .. } | Operator::Quote { .. } | Operator::DoubleQuote { .. } => {
            if in_text {
                let tint = if colors.render_mode == 3 {
                    None
                } else {
                    ctx.fill_tint(colors)
                };
                push_text(op, tint, out);
            }
        },
        Operator::TStar => {
            if in_text {
                push_command(out, PlateCommand::NextLine);
            }
        },
        Operator::Td { .. } | Operator::TD { .. } | Operator::Tm { .. } => {
            if in_text {
                push_command(out, PlateCommand::State(op));
            }
        },
        Operator::SetExtGState { dict_name } => {
            let found = find_ext_state(doc, resources, dict_name.as_str());
            push_command(out, PlateCommand::ExtGState(found));
        },
        Operator::EndText
        | Operator::Do { .. }
        | Operator::PaintShading { .. }
        | Operator::BeginMarkedContentDict { .. }
        | Operator::Other => {},
        _ => {
            push_command(out, PlateCommand::State(op));
        },
    }
}

/// Change the stack of colours and the text flag as an operator does.
pub fn walk_operator(
    doc: &PdfDocument,
    spaces: &Dict,
    op: &Operator,
    stack: &mut Vec<ColorState>,
    in_text: &mut bool,
)
    requires
        old(stack)@.len() > 0,
    ensures
        final(stack)@.len() > 0,
        (Walk { stack: stack_view(final(stack)@), in_text: *final(in_text) }) == walk_op(
            *doc,
            spaces@,
            Walk { stack: stack_view(old(stack)@), in_text: *old(in_text) },
            *op,
        ),
{
    let ghost before = stack_view(stack@);
    let top = stack.len() - 1;
    assert(before.last() == stack@[top as int]@);
    match op {
        Operator::SaveState => {
            let saved = stack[top].copy();
            stack.push(saved);
            assert(stack_view(stack@) =~= before.push(before.last()));
        },
        Operator::RestoreState => {
            if stack.len() > 1 {
                let _ = stack.pop();
                assert(stack_view(stack@) =~= before.drop_last());
            }
        },
        Operator::BeginText => {
            *in_text = true;
        },
        Operator::EndText => {
            *in_text = false;
        },
        _ => {
            let mut colors = stack.pop().unwrap();
            colors.recolor(op, spaces, doc);
            stack.push(colors);
            assert(stack_view(stack@) =~= before.drop_last().push(colors@));
        },
    }
}

/// Go through operators for one ink, from the colours `start` on.
pub fn execute_separation_operators<'a>(
    doc: &'a PdfDocument,
    target_ink: &str,
    resources: &'a Object,
    spaces: &Dict,
    operators: &'a Vec<Operator>,
    start: ColorState,
    active: &mut HashSet<usize>,
    out: &mut Vec<PlateCommand<'a>>,
) -> (r: Result<(), Error>)
    ensures
        ({
            let wanted = route_ops(
                Setting { doc: *doc, ink: target_ink@, resources: resources@, spaces: spaces@ },
                old(active)@,
                operators@,
                0,
                Walk { stack: seq![start@], in_text: false },
                commands(old(out)@),
            );
            match r {
                Ok(_) => wanted is Ok && wanted->Ok_0.1 == commands(final(out)@) && final(active)@
                    == old(active)@,
                Err(e) => wanted == Err::<(Walk, Seq<Command>), Failure>(e@),
            }
        }),
    decreases unseen(*doc, old(active)@), 1nat,
{
    let ctx = SeparationContext { doc, target_ink, resources, spaces };
    let ghost set = ctx.setting();
    let mut stack: Vec<ColorState> = Vec::new();
    stack.push(start);
    let mut in_text = false;
    assert(stack_view(stack@) =~= seq![start@]);
    let mut i: usize = 0;
    while i < operators.len()
        invariant
            i <= operators@.len(),
            stack@.len() > 0,
            ctx.doc == doc,
            ctx.resources == resources,
            ctx.spaces == spaces,
            ctx.target_ink == target_ink,
            set == ctx.setting(),
            active@ == old(active)@,
            route_ops(
                set,
                old(active)@,
                operators@,
                0,
                Walk { stack: seq![start@], in_text: false },
                commands(old(out)@),
            ) == route_ops(
                set,
                old(active)@,
                operators@,
                i as nat,
                Walk { stack: stack_view(stack@), in_text },
                commands(out@),
            ),
        decreases operators@.len() - i,
    {
        let op = &operators[i];
        let ghost w = Walk { stack: stack_view(stack@), in_text };
        let ghost before = commands(out@);
        let top = stack.len() - 1;
        assert(w.stack.last() == stack@[top as int]@);
        if let Operator::Do { name } = op {
            assert(route_op(set, old(active)@, *op, w, before) == (match draw(
                set,
                old(active)@,
                name@,
                w.stack.last(),
                before,
            ) {
                Err(e) => Err::<(Walk, Seq<Command>), Failure>(e),
                Ok(inner) => Ok::<(Walk, Seq<Command>), Failure>((w, inner)),
            }));
            let inherited = stack[top].copy();
            match draw_form(doc, target_ink, resources, spaces, name, inherited, active, out) {
                Ok(_) => {},
                Err(e) => return Err(e),
            }
        } else {
            push_commands(&ctx, doc, resources, &stack[top], in_text, op, out);
            assert(commands(out@) == before + commands_of(set, w, *op));
            walk_operator(doc, spaces, op, &mut stack, &mut in_text);
        }
        i += 1;
    }
    Ok(())
}

fn draw_form<'a>(
    doc: &'a PdfDocument,
    target_ink: &str,
    resources: &'a Object,
    spaces: &Dict,
    name: &String,
    inherited: ColorState,
    active: &mut HashSet<usize>,
    out: &mut Vec<PlateCommand<'a>>,
) -> (r: Result<(), Error>)
    ensures
        ({
            let wanted = draw(
                Setting { doc: *doc, ink: target_ink@, resources: resources@, spaces: spaces@ },
                old(active)@,
                name@,
                inherited@,
                commands(old(out)@),
            );
            match r {
                Ok(_) => wanted == Ok::<Seq<Command>, Failure>(commands(final(out)@)) && final(active)@
                    == old(active)@,
                Err(e) => wanted == Err::<Seq<Command>, Failure>(e@),
            }
        }),
    decreases unseen(*doc, old(active)@), 0nat,
{
    let form = match find_form(doc, resources, name.as_str()) {
        Some(f) => f,
        None => return Ok(()),
    };
    if let Some(id) = form.id {
        if active.contains(&id) {
            return Ok(());
        }
    }
    let opened = match open_form_ref(doc, &form, resources, spaces) {
        Ok(f) => f,
        Err(e) => return Err(e),
    };
    let (ops, id) = match (opened.operators, form.id) {
        (Some(ops), Some(id)) => (ops, id),
        _ => return Err(Error::UnparsableContent),
    };
    let matrix = parse_form_matrix(form.dict);
    push_command(out, PlateCommand::BeginForm(matrix));
    proof {
        named_form_found(*doc, resources@, name@);
        unseen_decreases(*doc, active@, id);
    }
    active.insert(id);
    let mut start = inherited;
    start.render_mode = 0;
    match execute_separation_operators(
        doc,
        target_ink,
        opened.resources,
        &opened.spaces,
        ops,
        start,
        active,
        out,
    ) {
        Ok(_) => {},
        Err(e) => return Err(e),
    }
    active.remove(&id);
    assert(active@ =~= old(active)@);
    push_command(out, PlateCommand::EndForm);
    Ok(())
}

} // verus!
