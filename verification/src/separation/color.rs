//! The current colours while content is gone through, and the tint that they give an ink.

use vstd::prelude::*;
use crate::document::{Operator, PdfDocument, Scalar, ONE_BITS, SIGN_BIT, ZERO_BITS};
use crate::object::{Dict, Entries};
use crate::text::str_eq;
use super::spaces::{name_texts, resolve_color_space, resolve_space, ResolvedSpace, Space};

verus! {

/// The four components of a process colour.
pub type Cmyk = (Scalar, Scalar, Scalar, Scalar);

/// A current colour.
pub struct Paint {
    /// The name of its space.
    pub space: Seq<char>,
    /// Its components in the space.
    pub components: Seq<Scalar>,
}

/// The part of the graphics state that decides what is painted on a plate.
pub struct Colors {
    pub fill: Paint,
    pub stroke: Paint,
    /// How text is rendered; text of mode three is invisible.
    pub render_mode: u8,
}

/// A current colour.
pub struct PaintState {
    pub space: String,
    pub components: Vec<Scalar>,
}

/// The part of the graphics state that decides what is painted on a plate.
pub struct ColorState {
    pub fill: PaintState,
    pub stroke: PaintState,
    pub render_mode: u8,
}

impl View for PaintState {
    type V = Paint;

    open spec fn view(&self) -> Paint {
        Paint { space: self.space@, components: self.components@ }
    }
}

impl View for ColorState {
    type V = Colors;

    open spec fn view(&self) -> Colors {
        Colors { fill: self.fill@, stroke: self.stroke@, render_mode: self.render_mode }
    }
}

/// The number zero.
pub open spec fn zero() -> Scalar {
    Scalar { bits: ZERO_BITS }
}

/// The number one.
pub open spec fn one() -> Scalar {
    Scalar { bits: ONE_BITS }
}

/// The number nearest to `s` from zero to one. The bits of numbers without a sign are in the order of
/// the numbers.
pub open spec fn unit(s: Scalar) -> Scalar {
    if s.bits >= SIGN_BIT {
        zero()
    } else if s.bits > ONE_BITS {
        one()
    } else {
        s
    }
}

/// A colour given by its components in a device space.
pub open spec fn device_paint(space: Seq<char>, components: Seq<Scalar>) -> Paint {
    Paint { space, components }
}

/// The colours at the start of a page.
pub open spec fn initial_colors() -> Colors {
    Colors {
        fill: device_paint("DeviceGray"@, Seq::empty()),
        stroke: device_paint("DeviceGray"@, Seq::empty()),
        render_mode: 0,
    }
}

/// The components of the initial colour of a space.
pub open spec fn initial_components(space: Space) -> Seq<Scalar> {
    match space {
        Space::Cmyk => seq![zero(), zero(), zero(), one()],
        Space::IccCmyk => seq![zero(), zero(), zero(), one()],
        Space::Rgb => seq![zero(), zero(), zero()],
        Space::IccRgb => seq![zero(), zero(), zero()],
        Space::Gray => seq![zero()],
        Space::IccGray => seq![zero()],
        Space::Separation(_) => seq![one()],
        Space::DeviceN(inks) => Seq::new(
            if inks.len() == 0 {
                1
            } else {
                inks.len()
            },
            |i: int| one(),
        ),
        Space::Unknown => Seq::empty(),
    }
}

/// The initial colour of the space of the given name.
pub open spec fn enter_space(doc: PdfDocument, spaces: Entries, name: Seq<char>) -> Paint {
    Paint { space: name, components: initial_components(resolve_space(doc, name, spaces, spaces.len())) }
}

/// A colour with other components in its space.
pub open spec fn with_components(p: Paint, components: Seq<Scalar>) -> Paint {
    Paint { space: p.space, components }
}

/// The colours after an operator. Only those that set a colour or the text rendering mode change
/// them.
pub open spec fn recolor(doc: PdfDocument, spaces: Entries, c: Colors, op: Operator) -> Colors {
    match op {
        Operator::SetFillRgb { r, g, b } => Colors {
            fill: device_paint("DeviceRGB"@, seq![r, g, b]),
            ..c
        },
        Operator::SetStrokeRgb { r, g, b } => Colors {
            stroke: device_paint("DeviceRGB"@, seq![r, g, b]),
            ..c
        },
        Operator::SetFillGray { gray } => Colors { fill: device_paint("DeviceGray"@, seq![gray]), ..c },
        Operator::SetStrokeGray { gray } => Colors {
            stroke: device_paint("DeviceGray"@, seq![gray]),
            ..c
        },
        Operator::SetFillCmyk { c: cyan, m, y, k } => Colors {
            fill: device_paint("DeviceCMYK"@, seq![cyan, m, y, k]),
            ..c
        },
        Operator::SetStrokeCmyk { c: cyan, m, y, k } => Colors {
            stroke: device_paint("DeviceCMYK"@, seq![cyan, m, y, k]),
            ..c
        },
        Operator::SetFillColorSpace { name } => Colors { fill: enter_space(doc, spaces, name@), ..c },
        Operator::SetStrokeColorSpace { name } => Colors { stroke: enter_space(doc, spaces, name@), ..c },
        Operator::SetFillColor { components } => Colors { fill: with_components(c.fill, components@), ..c },
        Operator::SetFillColorN { components, .. } => Colors {
            fill: with_components(c.fill, components@),
            ..c
        },
        Operator::SetStrokeColor { components } => Colors {
            stroke: with_components(c.stroke, components@),
            ..c
        },
        Operator::SetStrokeColorN { components, .. } => Colors {
            stroke: with_components(c.stroke, components@),
            ..c
        },
        Operator::Tr { render } => Colors { render_mode: render, ..c },
        _ => c,
    }
}

/// The component of a process colour for an ink.
pub open spec fn process_component(ink: Seq<char>, v: Cmyk) -> Option<Scalar> {
    if ink == "Cyan"@ {
        Some(v.0)
    } else if ink == "Magenta"@ {
        Some(v.1)
    } else if ink == "Yellow"@ {
        Some(v.2)
    } else if ink == "Black"@ {
        Some(v.3)
    } else {
        None
    }
}

/// The first position from `from` on at which `ink` stands.
pub open spec fn ink_position(inks: Seq<Seq<char>>, ink: Seq<char>, from: nat) -> Option<nat>
    decreases inks.len() - from,
{
    if from >= inks.len() {
        None
    } else if inks[from as int] == ink {
        Some(from)
    } else {
        ink_position(inks, ink, from + 1)
    }
}

/// The component of a colour that an ink is painted with; none where it does not touch the ink's
/// plate.
pub open spec fn ink_component(space: Space, components: Seq<Scalar>, ink: Seq<char>) -> Option<Scalar> {
    match space {
        Space::Cmyk | Space::IccCmyk => if components.len() >= 4 {
            process_component(ink, (components[0], components[1], components[2], components[3]))
        } else {
            None
        },
        Space::Separation(name) => if name == ink && components.len() > 0 {
            Some(components[0])
        } else {
            None
        },
        Space::DeviceN(names) => match ink_position(names, ink, 0) {
            Some(i) => if i < components.len() {
                Some(components[i as int])
            } else {
                None
            },
            None => None,
        },
        _ => None,
    }
}

/// The tint that a colour gives an ink; none where it does not touch the ink's plate.
pub open spec fn tint(doc: PdfDocument, spaces: Entries, p: Paint, ink: Seq<char>) -> Option<Scalar> {
    match ink_component(resolve_space(doc, p.space, spaces, spaces.len()), p.components, ink) {
        Some(s) => Some(unit(s)),
        None => None,
    }
}

/// A tint lies between zero and one.
pub proof fn tint_in_unit(doc: PdfDocument, spaces: Entries, p: Paint, ink: Seq<char>)
    ensures
        tint(doc, spaces, p, ink) matches Some(t) ==> ZERO_BITS <= t.bits <= ONE_BITS,
{
}

/// Inks that are not in a colour's space are not touched by it.
pub proof fn other_inks_untouched(doc: PdfDocument, spaces: Entries, p: Paint, ink: Seq<char>)
    requires
        !super::inks::space_inks(resolve_space(doc, p.space, spaces, spaces.len())).contains(ink),
    ensures
        tint(doc, spaces, p, ink) is None,
{
    let space = resolve_space(doc, p.space, spaces, spaces.len());
    let inks = super::inks::space_inks(space);
    match space {
        Space::Cmyk => {
            assert(inks[0] == "Cyan"@ && inks[1] == "Magenta"@ && inks[2] == "Yellow"@ && inks[3] == "Black"@);
        },
        Space::IccCmyk => {
            assert(inks[0] == "Cyan"@ && inks[1] == "Magenta"@ && inks[2] == "Yellow"@ && inks[3] == "Black"@);
        },
        Space::Separation(name) => {
            assert(inks[0] == name);
        },
        Space::DeviceN(names) => {
            position_holds(names, ink, 0);
        },
        _ => {},
    }
}

/// The position of an ink is one where it stands; without one it stands nowhere.
pub proof fn position_holds(inks: Seq<Seq<char>>, ink: Seq<char>, from: nat)
    ensures
        match ink_position(inks, ink, from) {
            Some(i) => from <= i < inks.len() && inks[i as int] == ink,
            None => forall|j: int| from <= j < inks.len() ==> inks[j] != ink,
        },
    decreases inks.len() - from,
{
    if from < inks.len() && inks[from as int] != ink {
        position_holds(inks, ink, from + 1);
    }
}

/// A copy of a list of numbers.
pub fn copy_scalars(s: &Vec<Scalar>) -> (r: Vec<Scalar>)
    ensures
        r@ == s@,
{
    let mut out: Vec<Scalar> = Vec::new();
    let mut i: usize = 0;
    while i < s.len()
        invariant
            i <= s@.len(),
            out@ == s@.take(i as int),
        decreases s@.len() - i,
    {
        out.push(s[i]);
        i += 1;
        assert(out@ =~= s@.take(i as int));
    }
    assert(out@ =~= s@);
    out
}

impl PaintState {
    fn device(space: &str, components: Vec<Scalar>) -> (p: Self)
        ensures
            p@ == device_paint(space@, components@),
    {
        PaintState { space: space.to_string(), components }
    }

    /// A copy.
    pub fn copy(&self) -> (p: Self)
        ensures
            p@ == self@,
    {
        PaintState { space: self.space.clone(), components: copy_scalars(&self.components) }
    }

    fn set_components(&mut self, components: &Vec<Scalar>)
        ensures
            final(self)@ == with_components(old(self)@, components@),
    {
        self.components = copy_scalars(components);
    }
}

/// The initial colour of the space of the given name.
pub fn initial_components_for_space(space_name: &str, spaces: &Dict, doc: &PdfDocument) -> (p: PaintState)
    ensures
        p@ == enter_space(*doc, spaces@, space_name@),
{
    let o = Scalar { bits: ZERO_BITS };
    let l = Scalar { bits: ONE_BITS };
    let mut components: Vec<Scalar> = Vec::new();
    let space = resolve_color_space(space_name, spaces, doc);
    match &space {
        ResolvedSpace::Cmyk | ResolvedSpace::IccCmyk => {
            components.push(o);
            components.push(o);
            components.push(o);
            components.push(l);
        },
        ResolvedSpace::Rgb | ResolvedSpace::IccRgb => {
            components.push(o);
            components.push(o);
            components.push(o);
        },
        ResolvedSpace::Gray | ResolvedSpace::IccGray => {
            components.push(o);
        },
        ResolvedSpace::Separation(_) => {
            components.push(l);
        },
        ResolvedSpace::DeviceN(inks) => {
            components.push(l);
            assert(name_texts(inks@).len() == inks@.len());
            while components.len() < inks.len()
                invariant
                    l == one(),
                    components@.len() >= 1,
                    components@.len() <= inks@.len() || components@.len() == 1,
                    forall|j: int| 0 <= j < components@.len() ==> (#[trigger] components@[j]) == one(),
                decreases inks@.len() - components@.len(),
            {
                components.push(l);
            }
        },
        ResolvedSpace::Unknown => {},
    }
    assert(components@ =~= initial_components(space@));
    PaintState { space: space_name.to_string(), components }
}

fn process_component_of(ink: &str, v: Cmyk) -> (r: Option<Scalar>)
    ensures
        r == process_component(ink@, v),
{
    if str_eq(ink, "Cyan") {
        Some(v.0)
    } else if str_eq(ink, "Magenta") {
        Some(v.1)
    } else if str_eq(ink, "Yellow") {
        Some(v.2)
    } else if str_eq(ink, "Black") {
        Some(v.3)
    } else {
        None
    }
}

fn to_unit(s: Scalar) -> (r: Scalar)
    ensures
        r == unit(s),
{
    if s.bits >= SIGN_BIT {
        Scalar { bits: ZERO_BITS }
    } else if s.bits > ONE_BITS {
        Scalar { bits: ONE_BITS }
    } else {
        s
    }
}

fn component_for_ink(space: &ResolvedSpace, c: &Vec<Scalar>, target_ink: &str) -> (r: Option<Scalar>)
    ensures
        r == ink_component(space@, c@, target_ink@),
{
    match space {
        ResolvedSpace::Cmyk | ResolvedSpace::IccCmyk => {
            if c.len() >= 4 {
                process_component_of(target_ink, (c[0], c[1], c[2], c[3]))
            } else {
                None
            }
        },
        ResolvedSpace::Separation(name) => {
            if str_eq(name.as_str(), target_ink) && c.len() > 0 {
                Some(c[0])
            } else {
                None
            }
        },
        ResolvedSpace::DeviceN(names) => {
            let ghost all = name_texts(names@);
            let mut i: usize = 0;
            while i < names.len()
                invariant
                    i <= names@.len(),
                    all == name_texts(names@),
                    space@ == Space::DeviceN(all),
                    ink_position(all, target_ink@, 0) == ink_position(all, target_ink@, i as nat),
                decreases names@.len() - i,
            {
                assert(all[i as int] == names@[i as int]@);
                if str_eq(names[i].as_str(), target_ink) {
                    return if i < c.len() {
                        Some(c[i])
                    } else {
                        None
                    };
                }
                i += 1;
            }
            None
        },
        _ => None,
    }
}

/// The tint that a colour gives an ink.
pub fn tint_for_ink(paint: &PaintState, spaces: &Dict, doc: &PdfDocument, target_ink: &str) -> (r: Option<Scalar>)
    ensures
        r == tint(*doc, spaces@, paint@, target_ink@),
{
    let space = resolve_color_space(paint.space.as_str(), spaces, doc);
    match component_for_ink(&space, &paint.components, target_ink) {
        Some(s) => Some(to_unit(s)),
        None => None,
    }
}

impl ColorState {
    /// The colours at the start of a page.
    pub fn initial() -> (c: Self)
        ensures
            c@ == initial_colors(),
    {
        let c = ColorState {
            fill: PaintState::device("DeviceGray", Vec::new()),
            stroke: PaintState::device("DeviceGray", Vec::new()),
            render_mode: 0,
        };
        assert(c@.fill.components =~= Seq::empty());
        assert(c@.stroke.components =~= Seq::empty());
        c
    }

    /// A copy.
    pub fn copy(&self) -> (c: Self)
        ensures
            c@ == self@,
    {
        ColorState { fill: self.fill.copy(), stroke: self.stroke.copy(), render_mode: self.render_mode }
    }

    /// Change the colours as an operator does.
    pub fn recolor(&mut self, op: &Operator, spaces: &Dict, doc: &PdfDocument)
        ensures
            final(self)@ == recolor(*doc, spaces@, old(self)@, *op),
    {
        match op {
            Operator::SetFillRgb { r, g, b } => {
                self.fill = PaintState::device("DeviceRGB", three(*r, *g, *b));
            },
            Operator::SetStrokeRgb { r, g, b } => {
                self.stroke = PaintState::device("DeviceRGB", three(*r, *g, *b));
            },
            Operator::SetFillGray { gray } => {
                self.fill = PaintState::device("DeviceGray", single(*gray));
            },
            Operator::SetStrokeGray { gray } => {
                self.stroke = PaintState::device("DeviceGray", single(*gray));
            },
            Operator::SetFillCmyk { c, m, y, k } => {
                self.fill = PaintState::device("DeviceCMYK", four(*c, *m, *y, *k));
            },
            Operator::SetStrokeCmyk { c, m, y, k } => {
                self.stroke = PaintState::device("DeviceCMYK", four(*c, *m, *y, *k));
            },
            Operator::SetFillColorSpace { name } => {
                self.fill = initial_components_for_space(name.as_str(), spaces, doc);
            },
            Operator::SetStrokeColorSpace { name } => {
                self.stroke = initial_components_for_space(name.as_str(), spaces, doc);
            },
            Operator::SetFillColor { components } => {
                self.fill.set_components(components);
            },
            Operator::SetFillColorN { components, .. } => {
                self.fill.set_components(components);
            },
            Operator::SetStrokeColor { components } => {
                self.stroke.set_components(components);
            },
            Operator::SetStrokeColorN { components, .. } => {
                self.stroke.set_components(components);
            },
            Operator::Tr { render } => {
                self.render_mode = *render;
            },
            _ => {},
        }
    }
}

fn single(a: Scalar) -> (r: Vec<Scalar>)
    ensures
        r@ == seq![a],
{
    let mut v: Vec<Scalar> = Vec::new();
    v.push(a);
    assert(v@ =~= seq![a]);
    v
}

fn four(a: Scalar, b: Scalar, c: Scalar, d: Scalar) -> (r: Vec<Scalar>)
    ensures
        r@ == seq![a, b, c, d],
{
    let mut v: Vec<Scalar> = Vec::new();
    v.push(a);
    v.push(b);
    v.push(c);
    v.push(d);
    assert(v@ =~= seq![a, b, c, d]);
    v
}

fn three(a: Scalar, b: Scalar, c: Scalar) -> (r: Vec<Scalar>)
    ensures
        r@ == seq![a, b, c],
{
    let mut v: Vec<Scalar> = Vec::new();
    v.push(a);
    v.push(b);
    v.push(c);
    assert(v@ =~= seq![a, b, c]);
    v
}

} // verus!
