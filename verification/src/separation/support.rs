//! Small decisions that painting a plate rests on.

use vstd::prelude::*;
use crate::document::{resolve, PdfDocument};
use crate::object::{dict_get, obj_dict, Dict, Entries, Obj, Object};

verus! {

/// How a page is turned.
#[derive(Debug, Clone, Copy, PartialEq, Eq, Structural)]
pub enum Orientation {
    Upright,
    Quarter,
    Half,
    ThreeQuarter,
}

/// How a page with the given rotation is turned. Only full quarters count.
pub open spec fn turned(rotation: int) -> Orientation {
    if rotation >= 0 && rotation % 360 == 90 {
        Orientation::Quarter
    } else if rotation >= 0 && rotation % 360 == 180 {
        Orientation::Half
    } else if rotation >= 0 && rotation % 360 == 270 {
        Orientation::ThreeQuarter
    } else {
        Orientation::Upright
    }
}

/// How a page with the given rotation in degrees is turned. A negative rotation counts as none.
pub fn orientation(rotation: i32) -> (r: Orientation)
    ensures
        r == turned(rotation as int),
{
    if rotation < 0 {
        return Orientation::Upright;
    }
    let turn: i32 = rotation % 360;
    if turn == 90 {
        Orientation::Quarter
    } else if turn == 180 {
        Orientation::Half
    } else if turn == 270 {
        Orientation::ThreeQuarter
    } else {
        Orientation::Upright
    }
}

/// Two masks laid over each other: each coverage is the product of the two.
pub open spec fn combined_mask(a: Seq<u8>, b: Seq<u8>) -> Seq<u8> {
    Seq::new(a.len(), |i: int| ((a[i] as int * b[i] as int) / 255) as u8)
}

/// Two masks of the same size laid over each other.
pub fn combine_masks(current: &[u8], added: &[u8]) -> (r: Vec<u8>)
    requires
        current@.len() == added@.len(),
    ensures
        r@ == combined_mask(current@, added@),
{
    let mut out: Vec<u8> = Vec::new();
    let mut i: usize = 0;
    while i < current.len()
        invariant
            i <= current@.len(),
            current@.len() == added@.len(),
            out@ == combined_mask(current@, added@).take(i as int),
        decreases current@.len() - i,
    {
        let a: u32 = current[i] as u32;
        let b: u32 = added[i] as u32;
        assert(0 <= a * b <= 255 * 255) by (nonlinear_arith)
            requires
                0 <= a <= 255,
                0 <= b <= 255,
        ;
        let product: u32 = a * b;
        let covered: u32 = product / 255;
        assert(covered <= 255);
        out.push(covered as u8);
        i += 1;
        assert(out@ =~= combined_mask(current@, added@).take(i as int));
    }
    assert(out@ =~= combined_mask(current@, added@));
    out
}

/// The character codes of shown text: two bytes each for a composite font, one byte otherwise. A
/// byte left over is no code.
pub open spec fn codes(text: Seq<u8>, composite: bool) -> Seq<u16> {
    if composite {
        Seq::new(text.len() / 2, |i: int| (text[2 * i] as u16 * 256 + text[2 * i + 1] as u16) as u16)
    } else {
        Seq::new(text.len(), |i: int| text[i] as u16)
    }
}

/// The character codes of shown text.
pub fn glyph_codes(text: &[u8], composite: bool) -> (r: Vec<u16>)
    ensures
        r@ == codes(text@, composite),
{
    let mut out: Vec<u16> = Vec::new();
    let n = text.len();
    if composite {
        let mut at: usize = 0;
        while n - at >= 2
            invariant
                n == text@.len(),
                at <= n,
                at == 2 * out@.len(),
                forall|i: int|
                    0 <= i < out@.len() ==> (#[trigger] out@[i]) == codes(text@, true)[i],
            decreases n - at,
        {
            let code: u16 = text[at] as u16 * 256 + text[at + 1] as u16;
            out.push(code);
            at += 2;
        }
    } else {
        let mut i: usize = 0;
        while i < n
            invariant
                n == text@.len(),
                i <= n,
                out@.len() == i,
                forall|j: int| 0 <= j < i ==> (#[trigger] out@[j]) == codes(text@, false)[j],
            decreases n - i,
        {
            out.push(text[i] as u16);
            i += 1;
        }
    }
    assert(out@ =~= codes(text@, composite));
    out
}

/// The fonts of a resource dictionary, by name.
pub open spec fn font_entries(doc: PdfDocument, resources: Obj) -> Entries {
    match resources {
        Obj::Dictionary(d) => match dict_get(d, "Font"@) {
            Some(o) => match resolve(doc, o) {
                Some(f) => match obj_dict(f) {
                    Some(fonts) => fonts,
                    None => Seq::empty(),
                },
                None => Seq::empty(),
            },
            None => Seq::empty(),
        },
        _ => Seq::empty(),
    }
}

/// The fonts of a resource dictionary; none where it has no such dictionary.
pub fn load_fonts<'a>(doc: &'a PdfDocument, resources: &'a Object) -> (r: Option<&'a Dict>)
    ensures
        match r {
            Some(d) => d@ == font_entries(*doc, resources@),
            None => font_entries(*doc, resources@) == Seq::<(Seq<char>, Obj)>::empty(),
        },
{
    match resources {
        Object::Dictionary(rd) => match rd.get("Font") {
            Some(o) => match doc.resolve_object(o) {
                Ok(f) => f.as_dict(),
                Err(_) => None,
            },
            None => None,
        },
        _ => None,
    }
}

/// A page turns by a quarter for every ninety degrees and comes back after four; by what is no full
/// number of quarters, or below zero, it does not turn.
pub proof fn quarters_turn(k: int, rotation: int)
    requires
        k >= 0,
    ensures
        turned(360 * k) == Orientation::Upright,
        turned(360 * k + 90) == Orientation::Quarter,
        turned(360 * k + 180) == Orientation::Half,
        turned(360 * k + 270) == Orientation::ThreeQuarter,
        rotation < 0 || rotation % 90 != 0 ==> turned(rotation) == Orientation::Upright,
{
    assert((360 * k) % 360 == 0);
    assert((360 * k + 90) % 360 == 90);
    assert((360 * k + 180) % 360 == 180);
    assert((360 * k + 270) % 360 == 270);
}

/// Laying masks over each other covers no more than either does: what one mask leaves out is left out,
/// what it covers fully is covered as the other has it, and the order does not matter.
pub proof fn masks_only_narrow(a: Seq<u8>, b: Seq<u8>, i: int)
    requires
        a.len() == b.len(),
        0 <= i < a.len(),
    ensures
        combined_mask(a, b).len() == a.len(),
        combined_mask(a, b)[i] == combined_mask(b, a)[i],
        combined_mask(a, b)[i] <= a[i],
        combined_mask(a, b)[i] <= b[i],
        a[i] == 0 ==> combined_mask(a, b)[i] == 0,
        a[i] == 255 ==> combined_mask(a, b)[i] == b[i],
        255 * combined_mask(a, b)[i] <= a[i] * b[i] < 255 * (combined_mask(a, b)[i] + 1),
{
    let x = a[i] as int;
    let y = b[i] as int;
    assert(x * y == y * x) by (nonlinear_arith);
    assert(0 <= x * y <= 255 * x && x * y <= 255 * y) by (nonlinear_arith)
        requires
            0 <= x <= 255,
            0 <= y <= 255,
    ;
    assert(0 <= (x * y) / 255 <= x);
    assert((x * y) / 255 <= y);
}

/// Each code of a composite font is made of two bytes, the high one first, and each of a simple font of
/// one; no byte is used twice, and at most one is left over.
pub proof fn codes_are_the_bytes(text: Seq<u8>, i: int)
    ensures
        codes(text, false).len() == text.len(),
        0 <= i < text.len() ==> codes(text, false)[i] == text[i],
        2 * codes(text, true).len() <= text.len() < 2 * codes(text, true).len() + 2,
        0 <= i < codes(text, true).len() ==> codes(text, true)[i] / 256 == text[2 * i] && codes(text, true)[i] % 256
            == text[2 * i + 1],
{
}

/// The fonts of resources are those of the dictionary that stands under `Font`, or is referred to
/// there.
pub proof fn fonts_come_from_the_resources(doc: PdfDocument, d: Entries, fonts: Entries)
    ensures
        dict_get(d, "Font"@) is None ==> font_entries(doc, Obj::Dictionary(d)) == Seq::<(Seq<char>, Obj)>::empty(),
        dict_get(d, "Font"@) == Some(Obj::Dictionary(fonts)) ==> font_entries(doc, Obj::Dictionary(d)) == fonts,
        dict_get(d, "Font"@) matches Some(Obj::Reference(id, _)) ==> doc.lookup(id) == Some(Obj::Dictionary(fonts))
            ==> font_entries(doc, Obj::Dictionary(d)) == fonts,
{
}

} // verus!
