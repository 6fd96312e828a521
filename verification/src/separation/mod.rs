//! Separation plates: the tint of a single ink over a page, as a gray image.

use std::collections::HashSet;
use vstd::prelude::*;
use crate::document::{Content, Error, Failure, PdfDocument, SourcePage};

pub mod color;
pub mod forms;
pub mod inks;
pub mod route;
pub mod shown;
pub mod spaces;
pub mod support;
pub mod unused;
pub mod used;

use self::color::ColorState;
use self::inks::{
    collect_page_inks, collect_referenced_inks, list_contains, page_inks, page_operators, referenced_inks,
};
use self::route::{commands, execute_separation_operators, page_start, route_ops, Command, PlateCommand, Setting};
use self::spaces::{color_spaces, load_color_spaces, name_texts};
use self::unused::{all_inkless, unused_ink_not_painted};

verus! {

/// A rendered plate.
#[derive(Debug, Clone)]
pub struct SeparationPlate {
    /// The name of the ink.
    pub ink_name: String,
    /// The tints, row by row from the top left: zero without ink, 255 for the full tint.
    pub data: Vec<u8>,
    /// The width in pixels.
    pub width: u32,
    /// The height in pixels.
    pub height: u32,
}

/// `n` zeros.
pub open spec fn zero_bytes(n: nat) -> Seq<u8> {
    Seq::new(n, |i: int| 0u8)
}

/// The pixels of an image of the given size on which nothing is painted: four bytes each.
pub open spec fn blank_pixels(width: u32, height: u32) -> Seq<u8> {
    zero_bytes((width * height * 4) as nat)
}

/// The red components of pixels of four bytes.
pub open spec fn red_channel(pixels: Seq<u8>) -> Seq<u8> {
    Seq::new(pixels.len() / 4, |i: int| pixels[4 * i])
}

/// A plate has one tint for each pixel, which is the first of the four bytes of the pixel.
pub proof fn plate_has_a_tint_for_each_pixel(pixels: Seq<u8>, n: nat, i: int)
    requires
        pixels.len() == 4 * n,
    ensures
        red_channel(pixels).len() == n,
        0 <= i < n ==> red_channel(pixels)[i] == pixels[4 * i],
{
}

/// Can an image of the given size be painted on? It has an area, and its rows are not too long.
pub open spec fn drawable(width: u32, height: u32) -> bool {
    width > 0 && height > 0 && width * 4 <= i32::MAX
}

/// Is the plate that of `ink`, with the given tints and size?
pub open spec fn plate_is(plate: SeparationPlate, ink: Seq<char>, data: Seq<u8>, width: u32, height: u32) -> bool {
    plate.ink_name@ == ink && plate.data@ == data && plate.width == width && plate.height == height
}

/// The commands that paint the plate of an ink of a page.
pub open spec fn plate_commands(doc: PdfDocument, page: SourcePage, ink: Seq<char>) -> Result<Seq<Command>, Failure> {
    match color_spaces(doc, page.resources@) {
        Err(e) => Err(e),
        Ok(spaces) => match page_operators(page) {
            Err(e) => Err(e),
            Ok(ops) => match route_ops(
                Setting { doc, ink, resources: page.resources@, spaces },
                Set::empty(),
                ops,
                0,
                page_start(),
                Seq::empty(),
            ) {
                Err(e) => Err(e),
                Ok((_, list)) => Ok(list),
            },
        },
    }
}

/// The commands for a plate, or why it cannot be rendered.
pub open spec fn plate_plan(
    doc: PdfDocument,
    page_num: nat,
    ink: Seq<char>,
    width: u32,
    height: u32,
) -> Result<Seq<Command>, Failure> {
    if page_num >= doc.page_seq().len() {
        Err(Failure::PageNotFound(page_num))
    } else if !drawable(width, height) {
        Err(Failure::InvalidPdf("Failed to create separation pixmap"@))
    } else {
        plate_commands(doc, doc.page_seq()[page_num as int], ink)
    }
}

/// May `paint` give `out` when it carries out the commands on an image of the given size on which
/// nothing is painted yet?
pub open spec fn painted<'a, F: Fn(&Vec<PlateCommand<'a>>, Vec<u8>) -> Result<Vec<u8>, Error>>(
    paint: F,
    list: Seq<Command>,
    width: u32,
    height: u32,
    out: Result<Vec<u8>, Error>,
) -> bool {
    exists|given: Vec<PlateCommand<'a>>, blank: Vec<u8>|
        commands(given@) == list && blank@ == blank_pixels(width, height) && #[trigger] call_ensures(
            paint,
            (&given, blank),
            out,
        )
}

/// Is `r` what rendering the plate of an ink gives, for some outcome of `paint`?
pub open spec fn rendered<'a, F: Fn(&Vec<PlateCommand<'a>>, Vec<u8>) -> Result<Vec<u8>, Error>>(
    doc: PdfDocument,
    page_num: nat,
    ink: Seq<char>,
    width: u32,
    height: u32,
    paint: F,
    r: Result<SeparationPlate, Error>,
) -> bool {
    match plate_plan(doc, page_num, ink, width, height) {
        Err(f) => r is Err && r->Err_0@ == f,
        Ok(list) => match r {
            Ok(plate) => exists|out: Result<Vec<u8>, Error>| #[trigger]
                painted(paint, list, width, height, out) && out is Ok && plate_is(
                    plate,
                    ink,
                    red_channel(out->Ok_0@),
                    width,
                    height,
                ),
            Err(e) => painted(paint, list, width, height, Err(e)),
        },
    }
}

/// Does `paint` paint the same picture whenever it is given the same commands and the same image?
pub open spec fn paints_the_same<'a, F: Fn(&Vec<PlateCommand<'a>>, Vec<u8>) -> Result<Vec<u8>, Error>>(
    paint: F,
) -> bool {
    forall|
        a: Vec<PlateCommand<'a>>,
        b: Vec<PlateCommand<'a>>,
        x: Vec<u8>,
        y: Vec<u8>,
        u: Vec<u8>,
        v: Vec<u8>,
    |
        commands(a@) == commands(b@) && x@ == y@ && #[trigger] call_ensures(
            paint,
            (&a, x),
            Ok::<Vec<u8>, Error>(u),
        ) && #[trigger] call_ensures(paint, (&b, y), Ok::<Vec<u8>, Error>(v)) ==> u@ == v@
}

/// Can `paint` be called on an image of the given size, does it keep the number of bytes, does it leave
/// the image as it was where no command puts ink on it, and does it paint the same for the same commands?
pub open spec fn paints<'a, F: Fn(&Vec<PlateCommand<'a>>, Vec<u8>) -> Result<Vec<u8>, Error>>(
    paint: F,
    width: u32,
    height: u32,
) -> bool {
    &&& forall|list: &Vec<PlateCommand<'a>>, pixels: Vec<u8>|
        pixels@ == blank_pixels(width, height) ==> #[trigger] call_requires(paint, (list, pixels))
    &&& forall|list: &Vec<PlateCommand<'a>>, pixels: Vec<u8>, out: Vec<u8>| #[trigger]
        call_ensures(paint, (list, pixels), Ok::<Vec<u8>, Error>(out)) ==> out@.len() == pixels@.len() && (
        all_inkless(commands(list@)) ==> out@ == pixels@)
    &&& paints_the_same(paint)
}

/// Could the ink not appear where the content of a page is painted?
pub open spec fn absent(doc: PdfDocument, page_num: nat, ink: Seq<char>) -> bool {
    page_num < doc.page_seq().len() && match referenced_inks(doc, doc.page_seq()[page_num as int]) {
        Ok(used) => !used.contains(ink),
        Err(_) => false,
    }
}

/// An image on which nothing is painted. `tiny_skia::Pixmap::new` makes it and
/// `tiny_skia::Pixmap::take` gives its bytes. It is claimed that there is one exactly where the
/// size is [`drawable`], and that its bytes are four zeros for each pixel.
#[verifier::external_body]
fn new_pixels(width: u32, height: u32) -> (r: Option<Vec<u8>>)
    requires
        width * height * 4 <= isize::MAX,
    ensures
        match r {
            Some(pixels) => drawable(width, height) && pixels@ == blank_pixels(width, height),
            None => !drawable(width, height),
        },
{
    match tiny_skia::Pixmap::new(width, height) {
        Some(pixmap) => Some(pixmap.take()),
        None => None,
    }
}

/// A plate without any ink.
pub fn empty_plate_for(ink_name: &str, width: u32, height: u32) -> (plate: SeparationPlate)
    ensures
        plate_is(plate, ink_name@, zero_bytes((width * height) as nat), width, height),
{
    assert(width * height <= 0xffff_ffff * 0xffff_ffff) by (nonlinear_arith)
        requires
            0 <= width <= 0xffff_ffff,
            0 <= height <= 0xffff_ffff,
    ;
    let count: u64 = width as u64 * height as u64;
    let mut data: Vec<u8> = Vec::new();
    while (data.len() as u64) < count
        invariant
            data@.len() <= count,
            forall|i: int| 0 <= i < data@.len() ==> (#[trigger] data@[i]) == 0u8,
        decreases count - data@.len(),
    {
        data.push(0);
    }
    assert(data@ =~= zero_bytes((width * height) as nat));
    SeparationPlate { ink_name: ink_name.to_string(), data, width, height }
}

/// The plate of painted pixels: its tints are their red components.
pub fn plate_from_pixels(ink_name: &str, pixels: &Vec<u8>, width: u32, height: u32) -> (plate: SeparationPlate)
    ensures
        plate_is(plate, ink_name@, red_channel(pixels@), width, height),
{
    let mut data: Vec<u8> = Vec::new();
    let mut at: usize = 0;
    let n = pixels.len();
    while n - at >= 4
        invariant
            n == pixels@.len(),
            at <= n,
            at == 4 * data@.len(),
            forall|i: int| 0 <= i < data@.len() ==> (#[trigger] data@[i]) == pixels@[4 * i],
        decreases n - at,
    {
        data.push(pixels[at]);
        at += 4;
    }
    assert(data@ =~= red_channel(pixels@));
    SeparationPlate { ink_name: ink_name.to_string(), data, width, height }
}

/// The commands that paint the plate of an ink of a page.
pub fn plan_separation<'a>(doc: &'a PdfDocument, page_num: usize, ink_name: &str) -> (r: Result<
    Vec<PlateCommand<'a>>,
    Error,
>)
    ensures
        match r {
            Ok(list) => page_num < doc.page_seq().len() && plate_commands(
                *doc,
                doc.page_seq()[page_num as int],
                ink_name@,
            ) == Ok::<Seq<Command>, Failure>(commands(list@)),
            Err(e) => if page_num < doc.page_seq().len() {
                plate_commands(*doc, doc.page_seq()[page_num as int], ink_name@) == Err::<
                    Seq<Command>,
                    Failure,
                >(e@)
            } else {
                e@ == Failure::PageNotFound(page_num as nat)
            },
        },
{
    let page = match doc.get_page(page_num) {
        Ok(p) => p,
        Err(e) => return Err(e),
    };
    let spaces = match load_color_spaces(doc, &page.resources) {
        Ok(d) => d,
        Err(e) => return Err(e),
    };
    let ops = match &page.content {
        Content::Operators(ops) => ops,
        Content::Undecodable => return Err(Error::UndecodableStream),
        Content::Unparsable => return Err(Error::UnparsableContent),
    };
    let mut active: HashSet<usize> = HashSet::new();
    let mut list: Vec<PlateCommand<'a>> = Vec::new();
    assert(commands(list@) =~= Seq::empty());
    assert(active@ =~= Set::empty());
    match execute_separation_operators(
        doc,
        ink_name,
        &page.resources,
        &spaces,
        ops,
        ColorState::initial(),
        &mut active,
        &mut list,
    ) {
        Ok(_) => Ok(list),
        Err(e) => Err(e),
    }
}

/// Render the plate of an ink of a page, of the given size in pixels. What is painted is decided
/// here; `paint` carries it out.
pub fn render_separation<'a, F: Fn(&Vec<PlateCommand<'a>>, Vec<u8>) -> Result<Vec<u8>, Error>>(
    doc: &'a PdfDocument,
    page_num: usize,
    ink_name: &str,
    width: u32,
    height: u32,
    paint: F,
) -> (r: Result<SeparationPlate, Error>)
    requires
        drawable(width, height) ==> width * height * 4 <= isize::MAX,
        paints(paint, width, height),
    ensures
        rendered(*doc, page_num as nat, ink_name@, width, height, paint, r),
        r is Ok ==> r->Ok_0.data@.len() == width * height,
        r is Ok && absent(*doc, page_num as nat, ink_name@) ==> r->Ok_0.data@ == zero_bytes(
            (width * height) as nat,
        ),
{
    render_single_separation(doc, page_num, ink_name, width, height, &paint)
}

fn render_single_separation<'a, F: Fn(&Vec<PlateCommand<'a>>, Vec<u8>) -> Result<Vec<u8>, Error>>(
    doc: &'a PdfDocument,
    page_num: usize,
    ink_name: &str,
    width: u32,
    height: u32,
    paint: &F,
) -> (r: Result<SeparationPlate, Error>)
    requires
        drawable(width, height) ==> width * height * 4 <= isize::MAX,
        paints(*paint, width, height),
    ensures
        rendered(*doc, page_num as nat, ink_name@, width, height, *paint, r),
        r is Ok ==> r->Ok_0.data@.len() == width * height,
        r is Ok && absent(*doc, page_num as nat, ink_name@) ==> r->Ok_0.data@ == zero_bytes(
            (width * height) as nat,
        ),
{
    if page_num >= doc.page_count() {
        return Err(Error::PageNotFound(page_num));
    }
    if width == 0 || height == 0 || width > 0x1fff_ffff {
        return Err(Error::InvalidPdf("Failed to create separation pixmap".to_string()));
    }
    let blank = match new_pixels(width, height) {
        Some(p) => p,
        None => return Err(Error::InvalidPdf("Failed to create separation pixmap".to_string())),
    };
    let list = match plan_separation(doc, page_num, ink_name) {
        Ok(l) => l,
        Err(e) => return Err(e),
    };
    let ghost wanted = commands(list@);
    assert(plate_plan(*doc, page_num as nat, ink_name@, width, height) == Ok::<Seq<Command>, Failure>(wanted));
    let out = paint(&list, blank);
    assert(painted(*paint, wanted, width, height, out));
    match out {
        Ok(pixels) => {
            assert(pixels@.len() == width * height * 4);
            proof {
                if absent(*doc, page_num as nat, ink_name@) {
                    unused_ink_not_painted(*doc, doc.page_seq()[page_num as int], ink_name@);
                    assert(pixels@ == blank_pixels(width, height));
                    assert(red_channel(pixels@) =~= zero_bytes((width * height) as nat));
                }
            }
            let plate = plate_from_pixels(ink_name, &pixels, width, height);
            proof {
                let plan = plate_plan(*doc, page_num as nat, ink_name@, width, height);
                assert(plan is Ok && plan->Ok_0 == wanted);
                let r: Result<SeparationPlate, Error> = Ok(plate);
                assert(r is Ok && r->Ok_0 == plate);
                assert(painted(*paint, plan->Ok_0, width, height, out) && out is Ok && plate_is(
                    r->Ok_0,
                    ink_name@,
                    red_channel(out->Ok_0@),
                    width,
                    height,
                ));
                assert(rendered(*doc, page_num as nat, ink_name@, width, height, *paint, r));
            }
            Ok(plate)
        },
        Err(e) => Err(e),
    }
}

/// Is `r` what rendering the plate of the ink at position `i` gives, for some outcome of `paint`? An
/// ink that the content does not use has an empty plate.
pub open spec fn plate_rendered<'a, F: Fn(&Vec<PlateCommand<'a>>, Vec<u8>) -> Result<Vec<u8>, Error>>(
    doc: PdfDocument,
    page_num: nat,
    ink: Seq<char>,
    used: Seq<Seq<char>>,
    width: u32,
    height: u32,
    paint: F,
    r: Result<SeparationPlate, Error>,
) -> bool {
    if used.contains(ink) {
        rendered(doc, page_num, ink, width, height, paint, r)
    } else {
        r is Ok && plate_is(r->Ok_0, ink, zero_bytes((width * height) as nat), width, height)
    }
}

/// May the plate of an ink be rendered, for some outcome of `paint`?
pub open spec fn may_render<'a, F: Fn(&Vec<PlateCommand<'a>>, Vec<u8>) -> Result<Vec<u8>, Error>>(
    doc: PdfDocument,
    page_num: nat,
    ink: Seq<char>,
    used: Seq<Seq<char>>,
    width: u32,
    height: u32,
    paint: F,
) -> bool {
    exists|plate: SeparationPlate| #[trigger]
        plate_rendered(doc, page_num, ink, used, width, height, paint, Ok(plate))
}

/// Not painting the plates of inks that the content does not use changes no plate: the plate that
/// comes of rendering all inks is the one that comes of rendering its ink alone.
pub proof fn plates_agree<'a, F: Fn(&Vec<PlateCommand<'a>>, Vec<u8>) -> Result<Vec<u8>, Error>>(
    doc: PdfDocument,
    page_num: nat,
    ink: Seq<char>,
    width: u32,
    height: u32,
    paint: F,
    of_all: SeparationPlate,
    alone: SeparationPlate,
)
    requires
        page_num < doc.page_seq().len(),
        referenced_inks(doc, doc.page_seq()[page_num as int]) is Ok,
        paints(paint, width, height),
        plate_rendered(
            doc,
            page_num,
            ink,
            referenced_inks(doc, doc.page_seq()[page_num as int])->Ok_0,
            width,
            height,
            paint,
            Ok(of_all),
        ),
        rendered(doc, page_num, ink, width, height, paint, Ok(alone)),
    ensures
        of_all.ink_name@ == alone.ink_name@,
        of_all.width == alone.width,
        of_all.height == alone.height,
        of_all.data@ == alone.data@,
{
    let page = doc.page_seq()[page_num as int];
    let used = referenced_inks(doc, page)->Ok_0;
    let list = plate_plan(doc, page_num, ink, width, height)->Ok_0;
    let v = choose|out: Result<Vec<u8>, Error>| #[trigger]
        painted(paint, list, width, height, out) && out is Ok && plate_is(
            alone,
            ink,
            red_channel(out->Ok_0@),
            width,
            height,
        );
    let (b, y) = choose|given: Vec<PlateCommand<'a>>, blank: Vec<u8>|
        commands(given@) == list && blank@ == blank_pixels(width, height) && #[trigger] call_ensures(
            paint,
            (&given, blank),
            v,
        );
    assert(call_ensures(paint, (&b, y), Ok::<Vec<u8>, Error>(v->Ok_0)));
    if used.contains(ink) {
        let u = choose|out: Result<Vec<u8>, Error>| #[trigger]
            painted(paint, list, width, height, out) && out is Ok && plate_is(
                of_all,
                ink,
                red_channel(out->Ok_0@),
                width,
                height,
            );
        let (a, x) = choose|given: Vec<PlateCommand<'a>>, blank: Vec<u8>|
            commands(given@) == list && blank@ == blank_pixels(width, height) && #[trigger] call_ensures(
                paint,
                (&given, blank),
                u,
            );
        assert(call_ensures(paint, (&a, x), Ok::<Vec<u8>, Error>(u->Ok_0)));
    } else {
        unused_ink_not_painted(doc, page, ink);
        assert(v->Ok_0@ == blank_pixels(width, height));
        assert(red_channel(v->Ok_0@) =~= zero_bytes((width * height) as nat));
    }
}

/// Render the plates of all inks of a page, in the order of [`page_inks`]. The first plate that cannot
/// be rendered ends it.
pub fn render_separations<'a, F: Fn(&Vec<PlateCommand<'a>>, Vec<u8>) -> Result<Vec<u8>, Error>>(
    doc: &'a PdfDocument,
    page_num: usize,
    width: u32,
    height: u32,
    paint: F,
) -> (r: Result<Vec<SeparationPlate>, Error>)
    requires
        drawable(width, height) ==> width * height * 4 <= isize::MAX,
        paints(paint, width, height),
    ensures
        if page_num >= doc.page_seq().len() {
            r is Err && r->Err_0@ == Failure::PageNotFound(page_num as nat)
        } else {
            let page = doc.page_seq()[page_num as int];
            let inks = page_inks(page);
            match referenced_inks(*doc, page) {
                Err(f) => r is Err && r->Err_0@ == f,
                Ok(used) => match r {
                    Ok(plates) => {
                        &&& plates@.len() == inks.len()
                        &&& forall|i: int|
                            0 <= i < inks.len() ==> (#[trigger] plates@[i]).data@.len() == width * height
                                && plate_rendered(
                                *doc,
                                page_num as nat,
                                inks[i],
                                used,
                                width,
                                height,
                                paint,
                                Ok(plates@[i]),
                            )
                    },
                    Err(e) => exists|i: int|
                        {
                            &&& 0 <= i < inks.len()
                            &&& plate_rendered(
                                *doc,
                                page_num as nat,
                                #[trigger] inks[i],
                                used,
                                width,
                                height,
                                paint,
                                Err(e),
                            )
                            &&& forall|j: int|
                                0 <= j < i ==> may_render(
                                    *doc,
                                    page_num as nat,
                                    #[trigger] inks[j],
                                    used,
                                    width,
                                    height,
                                    paint,
                                )
                        },
                },
            }
        },
{
    let inks = match collect_page_inks(doc, page_num) {
        Ok(list) => list,
        Err(e) => return Err(e),
    };
    let used = match collect_referenced_inks(doc, page_num) {
        Ok(list) => list,
        Err(e) => return Err(e),
    };
    let ghost names = name_texts(inks@);
    let mut plates: Vec<SeparationPlate> = Vec::new();
    let mut i: usize = 0;
    while i < inks.len()
        invariant
            i <= inks@.len(),
            plates@.len() == i,
            names == name_texts(inks@),
            drawable(width, height) ==> width * height * 4 <= isize::MAX,
            paints(paint, width, height),
            page_num < doc.page_seq().len(),
            names == page_inks(doc.page_seq()[page_num as int]),
            referenced_inks(*doc, doc.page_seq()[page_num as int]) == Ok::<Seq<Seq<char>>, Failure>(
                name_texts(used@),
            ),
            forall|j: int|
                0 <= j < i ==> (#[trigger] plates@[j]).data@.len() == width * height && plate_rendered(
                    *doc,
                    page_num as nat,
                    names[j],
                    name_texts(used@),
                    width,
                    height,
                    paint,
                    Ok(plates@[j]),
                ),
        decreases inks@.len() - i,
    {
        let ink = inks[i].as_str();
        assert(names[i as int] == ink@);
        let plate = if list_contains(&used, ink) {
            match render_single_separation(doc, page_num, ink, width, height, &paint) {
                Ok(p) => p,
                Err(e) => {
                    assert(plate_rendered(
                        *doc,
                        page_num as nat,
                        names[i as int],
                        name_texts(used@),
                        width,
                        height,
                        paint,
                        Err(e),
                    ));
                    assert forall|j: int| 0 <= j < i implies may_render(
                        *doc,
                        page_num as nat,
                        #[trigger] names[j],
                        name_texts(used@),
                        width,
                        height,
                        paint,
                    ) by {
                        assert(plates@[j].data@.len() == width * height);
                    }
                    return Err(e);
                },
            }
        } else {
            empty_plate_for(ink, width, height)
        };
        plates.push(plate);
        i += 1;
    }
    Ok(plates)
}

} // verus!
