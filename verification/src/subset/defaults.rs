//! What content needs of its resources beside those that it names: the colour spaces that stand for
//! the device spaces which it may paint with, and everything where it could not be read.

use vstd::prelude::*;
use crate::document::{Content, Operator};
use crate::text::str_eq;
use super::resources::{content_use, scan_used, Category, Used, UsedNames};

verus! {

/// May an operator paint with device gray, for which `DefaultGray` stands where there is one? That is
/// the colour at first.
pub open spec fn paints_gray(op: Operator) -> bool {
    match op {
        Operator::SetFillGray { .. } => true,
        Operator::SetStrokeGray { .. } => true,
        Operator::SetFillColorSpace { name } => name@ == "DeviceGray"@ || name@ == "G"@,
        Operator::SetStrokeColorSpace { name } => name@ == "DeviceGray"@ || name@ == "G"@,
        Operator::Stroke => true,
        Operator::Fill => true,
        Operator::FillEvenOdd => true,
        Operator::FillStroke => true,
        Operator::CloseFillStroke => true,
        Operator::FillStrokeEvenOdd => true,
        Operator::CloseFillStrokeEvenOdd => true,
        Operator::Tj { .. } => true,
        Operator::TJ { .. } => true,
        Operator::Quote { .. } => true,
        Operator::DoubleQuote { .. } => true,
        _ => paints_any(op),
    }
}

/// May an operator paint with device RGB, for which `DefaultRGB` stands where there is one?
pub open spec fn paints_rgb(op: Operator) -> bool {
    match op {
        Operator::SetFillRgb { .. } => true,
        Operator::SetStrokeRgb { .. } => true,
        Operator::SetFillColorSpace { name } => name@ == "DeviceRGB"@ || name@ == "RGB"@,
        Operator::SetStrokeColorSpace { name } => name@ == "DeviceRGB"@ || name@ == "RGB"@,
        _ => paints_any(op),
    }
}

/// May an operator paint with device CMYK, for which `DefaultCMYK` stands where there is one?
pub open spec fn paints_cmyk(op: Operator) -> bool {
    match op {
        Operator::SetFillCmyk { .. } => true,
        Operator::SetStrokeCmyk { .. } => true,
        Operator::SetFillColorSpace { name } => name@ == "DeviceCMYK"@ || name@ == "CMYK"@,
        Operator::SetStrokeColorSpace { name } => name@ == "DeviceCMYK"@ || name@ == "CMYK"@,
        _ => paints_any(op),
    }
}

/// Does an operator paint an image, a shading or a pattern, which may be in any device space?
pub open spec fn paints_any(op: Operator) -> bool {
    match op {
        Operator::Do { .. } => true,
        Operator::PaintShading { .. } => true,
        Operator::InlineImage { .. } => true,
        Operator::SetFillColorN { name: Some(_), .. } => true,
        Operator::SetStrokeColorN { name: Some(_), .. } => true,
        _ => false,
    }
}

/// Is the resource a space that stands for one which an operator may paint with?
pub open spec fn op_default(op: Operator, p: (Category, Seq<char>)) -> bool {
    ||| paints_gray(op) && p == (Category::ColorSpace, "DefaultGray"@)
    ||| paints_rgb(op) && p == (Category::ColorSpace, "DefaultRGB"@)
    ||| paints_cmyk(op) && p == (Category::ColorSpace, "DefaultCMYK"@)
}

/// The spaces that stand for those which the operators may paint with.
pub open spec fn default_use(ops: Seq<Operator>) -> Used {
    Set::new(|p: (Category, Seq<char>)| exists|i: int| 0 <= i < ops.len() && op_default(#[trigger] ops[i], p))
}

/// The resources that a content needs: those that it names, and the spaces that stand for those which it
/// may paint with. Content that could not be read may need any.
pub open spec fn content_need(content: Content) -> Used {
    match content {
        Content::Operators(ops) => content_use(content).union(default_use(ops@)),
        _ => Set::new(|p: (Category, Seq<char>)| true),
    }
}

fn may_paint_any(op: &Operator) -> (r: bool)
    ensures
        r == paints_any(*op),
{
    match op {
        Operator::Do { .. } => true,
        Operator::PaintShading { .. } => true,
        Operator::InlineImage { .. } => true,
        Operator::SetFillColorN { name, .. } => name.is_some(),
        Operator::SetStrokeColorN { name, .. } => name.is_some(),
        _ => false,
    }
}

fn may_paint_gray(op: &Operator) -> (r: bool)
    ensures
        r == paints_gray(*op),
{
    match op {
        Operator::SetFillGray { .. } => true,
        Operator::SetStrokeGray { .. } => true,
        Operator::SetFillColorSpace { name } => str_eq(name.as_str(), "DeviceGray") || str_eq(name.as_str(), "G"),
        Operator::SetStrokeColorSpace { name } => str_eq(name.as_str(), "DeviceGray") || str_eq(name.as_str(), "G"),
        Operator::Stroke => true,
        Operator::Fill => true,
        Operator::FillEvenOdd => true,
        Operator::FillStroke => true,
        Operator::CloseFillStroke => true,
        Operator::FillStrokeEvenOdd => true,
        Operator::CloseFillStrokeEvenOdd => true,
        Operator::Tj { .. } => true,
        Operator::TJ { .. } => true,
        Operator::Quote { .. } => true,
        Operator::DoubleQuote { .. } => true,
        _ => may_paint_any(op),
    }
}

fn may_paint_rgb(op: &Operator) -> (r: bool)
    ensures
        r == paints_rgb(*op),
{
    match op {
        Operator::SetFillRgb { .. } => true,
        Operator::SetStrokeRgb { .. } => true,
        Operator::SetFillColorSpace { name } => str_eq(name.as_str(), "DeviceRGB") || str_eq(name.as_str(), "RGB"),
        Operator::SetStrokeColorSpace { name } => str_eq(name.as_str(), "DeviceRGB") || str_eq(name.as_str(), "RGB"),
        _ => may_paint_any(op),
    }
}

fn may_paint_cmyk(op: &Operator) -> (r: bool)
    ensures
        r == paints_cmyk(*op),
{
    match op {
        Operator::SetFillCmyk { .. } => true,
        Operator::SetStrokeCmyk { .. } => true,
        Operator::SetFillColorSpace { name } => str_eq(name.as_str(), "DeviceCMYK") || str_eq(name.as_str(), "CMYK"),
        Operator::SetStrokeColorSpace { name } => str_eq(name.as_str(), "DeviceCMYK") || str_eq(name.as_str(), "CMYK"),
        _ => may_paint_any(op),
    }
}

fn scan_op_default(op: &Operator, used: &mut UsedNames)
    ensures
        final(used)@ == old(used)@.union(Set::new(|p: (Category, Seq<char>)| op_default(*op, p))),
{
    if may_paint_gray(op) {
        used.insert(Category::ColorSpace, &"DefaultGray".to_string());
    }
    if may_paint_rgb(op) {
        used.insert(Category::ColorSpace, &"DefaultRGB".to_string());
    }
    if may_paint_cmyk(op) {
        used.insert(Category::ColorSpace, &"DefaultCMYK".to_string());
    }
    assert(used@ =~= old(used)@.union(Set::new(|p: (Category, Seq<char>)| op_default(*op, p))));
}

/// Record the spaces that stand for those which the operators may paint with.
pub fn scan_defaults(ops: &Vec<Operator>, used: &mut UsedNames)
    ensures
        final(used)@ == old(used)@.union(default_use(ops@)),
{
    let mut i: usize = 0;
    assert(used@ =~= old(used)@.union(default_use(ops@.take(0))));
    while i < ops.len()
        invariant
            i <= ops@.len(),
            used@ == old(used)@.union(default_use(ops@.take(i as int))),
        decreases ops@.len() - i,
    {
        scan_op_default(&ops[i], used);
        proof {
            let a = ops@.take(i as int);
            let b = ops@.take(i + 1);
            assert forall|p: (Category, Seq<char>)| default_use(b).contains(p) == (default_use(a).contains(p)
                || op_default(ops@[i as int], p)) by {
                if default_use(a).contains(p) {
                    let j = choose|j: int| 0 <= j < a.len() && op_default(#[trigger] a[j], p);
                    assert(b[j] == a[j]);
                }
                if op_default(ops@[i as int], p) {
                    assert(b[i as int] == ops@[i as int]);
                }
                if default_use(b).contains(p) {
                    let j = choose|j: int| 0 <= j < b.len() && op_default(#[trigger] b[j], p);
                    if j < i {
                        assert(a[j] == b[j]);
                    }
                }
            }
            assert(used@ =~= old(used)@.union(default_use(b)));
        }
        i += 1;
    }
    assert(ops@.take(i as int) =~= ops@);
}

/// Record the resources that a content needs.
pub fn scan_needed(content: &Content, used: &mut UsedNames)
    ensures
        final(used)@ == old(used)@.union(content_need(*content)),
{
    scan_used(content, used);
    match content {
        Content::Operators(ops) => scan_defaults(ops, used),
        _ => {
            used.all = true;
        },
    }
    assert(used@ =~= old(used)@.union(content_need(*content)));
}

} // verus!
