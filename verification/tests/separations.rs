//! Separation plates: which inks a page has, what is painted on each plate, and how plates are made.

use pdf_subset::document::{Content, Error, Operator, PdfDocument, Scalar, SourcePage, TextElement};
use pdf_subset::object::{Dict, Object, ObjectRef};
use pdf_subset::separation::inks::{collect_page_inks, collect_referenced_inks};
use pdf_subset::separation::route::{parse_form_matrix, PlateCommand};
use pdf_subset::separation::support::{combine_masks, glyph_codes, load_fonts, orientation, Orientation};
use pdf_subset::separation::{
    empty_plate_for, plan_separation, plate_from_pixels, render_separation, render_separations, SeparationPlate,
};

fn num(v: f32) -> Scalar {
    Scalar { bits: v.to_bits() }
}

fn name(n: &str) -> Object {
    Object::Name(n.to_string())
}

fn reference(id: usize) -> Object {
    Object::Reference(ObjectRef::new(id, 0))
}

fn dict(entries: Vec<(&str, Object)>) -> Dict {
    let mut d = Dict::new();
    for (k, v) in entries {
        d.insert(k, v);
    }
    d
}

fn dictionary(entries: Vec<(&str, Object)>) -> Object {
    Object::Dictionary(dict(entries))
}

fn separation(ink: &str) -> Object {
    Object::Array(vec![name("Separation"), name(ink), name("DeviceCMYK"), Object::Null])
}

fn device_n(inks: &[&str]) -> Object {
    Object::Array(vec![
        name("DeviceN"),
        Object::Array(inks.iter().map(|i| name(i)).collect()),
        name("DeviceCMYK"),
        Object::Null,
    ])
}

fn cs(n: &str) -> Operator {
    Operator::SetFillColorSpace { name: n.to_string() }
}

fn scn(components: &[f32]) -> Operator {
    Operator::SetFillColor { components: components.iter().map(|v| num(*v)).collect() }
}

fn cmyk(c: f32, m: f32, y: f32, k: f32) -> Operator {
    Operator::SetFillCmyk { c: num(c), m: num(m), y: num(y), k: num(k) }
}

fn draw(n: &str) -> Operator {
    Operator::Do { name: n.to_string() }
}

fn page_doc(resources: Object, content: Content, inks: &[&str]) -> PdfDocument {
    let mut doc = PdfDocument::new(Object::Null);
    doc.add_page(SourcePage {
        object: Object::Dictionary(Dict::new()),
        content,
        resources,
        inks: inks.iter().map(|i| i.to_string()).collect(),
    });
    doc
}

fn spaces(entries: Vec<(&str, Object)>) -> Object {
    dictionary(vec![("ColorSpace", dictionary(entries))])
}

/// The tints of the paintings of a page on the plate of an ink: fill and stroke of each.
fn paints(doc: &PdfDocument, ink: &str) -> Vec<(Option<f32>, Option<f32>)> {
    let value = |s: &Scalar| f32::from_bits(s.bits);
    plan_separation(doc, 0, ink)
        .unwrap()
        .iter()
        .filter_map(|c| match c {
            PlateCommand::Paint { fill, stroke, .. } => {
                Some((fill.as_ref().map(value), stroke.as_ref().map(value)))
            },
            _ => None,
        })
        .collect()
}

/// The fill tints of the paintings of a page on the plate of an ink.
fn fills(doc: &PdfDocument, ink: &str) -> Vec<Option<f32>> {
    paints(doc, ink).into_iter().map(|(fill, _)| fill).collect()
}

#[test]
fn process_inks_come_first_and_no_ink_comes_twice() {
    let doc = page_doc(Object::Null, Content::Operators(vec![]), &["Dieline", "Cyan", "Dieline", "Varnish"]);
    assert_eq!(
        collect_page_inks(&doc, 0).unwrap(),
        vec!["Cyan", "Magenta", "Yellow", "Black", "Dieline", "Varnish"]
    );
    assert!(matches!(collect_page_inks(&doc, 1), Err(Error::PageNotFound(1))));
}

#[test]
fn referenced_inks_are_those_of_the_spaces_that_are_set() {
    let res = spaces(vec![
        ("S", separation("Dieline")),
        ("N", device_n(&["Varnish", "Cyan"])),
        ("Unused", separation("Gold")),
        ("Alias", name("S")),
    ]);
    let ops = vec![cs("N"), cs("Alias"), cs("DeviceRGB"), cs("Nowhere")];
    let doc = page_doc(res, Content::Operators(ops), &[]);
    assert_eq!(collect_referenced_inks(&doc, 0).unwrap(), vec!["Varnish", "Cyan", "Dieline"]);
}

#[test]
fn referenced_inks_reach_into_forms() {
    let inner = dictionary(vec![("ColorSpace", dictionary(vec![("S", separation("Foil"))]))]);
    let res = dictionary(vec![
        ("ColorSpace", dictionary(vec![("S", separation("Outer"))])),
        ("XObject", dictionary(vec![("F", reference(5)), ("I", reference(6))])),
    ]);
    let mut doc = page_doc(res, Content::Operators(vec![draw("I"), draw("F"), draw("F")]), &[]);
    doc.add_object(
        5,
        Object::Stream { dict: dict(vec![("Subtype", name("Form")), ("Resources", inner)]), data: vec![] },
    );
    doc.add_content(5, Content::Operators(vec![cs("S"), draw("F")]));
    doc.add_object(6, Object::Stream { dict: dict(vec![("Subtype", name("Image"))]), data: vec![] });
    assert_eq!(collect_referenced_inks(&doc, 0).unwrap(), vec!["Foil"]);
}

#[test]
fn tints_go_to_the_plates_of_their_inks() {
    let res = spaces(vec![("S", separation("Dieline")), ("N", device_n(&["Varnish", "Cyan"]))]);
    let ops = vec![
        Operator::Fill,
        cmyk(0.25, 0.5, 0.75, 1.0),
        Operator::Fill,
        cs("S"),
        Operator::FillEvenOdd,
        scn(&[0.5]),
        Operator::Fill,
        cs("N"),
        scn(&[0.125, 0.375]),
        Operator::Fill,
        Operator::SetFillRgb { r: num(1.0), g: num(0.0), b: num(0.0) },
        Operator::Fill,
    ];
    let doc = page_doc(res, Content::Operators(ops), &[]);
    assert_eq!(fills(&doc, "Cyan"), vec![None, Some(0.25), None, None, Some(0.375), None]);
    assert_eq!(fills(&doc, "Magenta"), vec![None, Some(0.5), None, None, None, None]);
    assert_eq!(fills(&doc, "Yellow"), vec![None, Some(0.75), None, None, None, None]);
    assert_eq!(fills(&doc, "Black"), vec![None, Some(1.0), None, None, None, None]);
    assert_eq!(fills(&doc, "Dieline"), vec![None, None, Some(1.0), Some(0.5), None, None]);
    assert_eq!(fills(&doc, "Varnish"), vec![None, None, None, None, Some(0.125), None]);
}

#[test]
fn fill_and_stroke_colours_are_apart() {
    let ops = vec![
        cmyk(0.5, 0.0, 0.0, 0.0),
        Operator::SetStrokeCmyk { c: num(0.75), m: num(0.0), y: num(0.0), k: num(0.0) },
        Operator::Stroke,
        Operator::Fill,
        Operator::FillStroke,
        Operator::CloseFillStrokeEvenOdd,
        Operator::EndPath,
    ];
    let doc = page_doc(Object::Null, Content::Operators(ops), &[]);
    assert_eq!(
        paints(&doc, "Cyan"),
        vec![
            (None, Some(0.75)),
            (Some(0.5), None),
            (Some(0.5), Some(0.75)),
            (Some(0.5), Some(0.75)),
            (None, None)
        ]
    );
    let list = plan_separation(&doc, 0, "Cyan").unwrap();
    assert!(list.iter().any(|c| matches!(c, PlateCommand::Paint { even_odd: true, .. })));
}

#[test]
fn restoring_the_state_brings_the_colour_back() {
    let ops = vec![
        Operator::RestoreState,
        cmyk(0.5, 0.0, 0.0, 0.0),
        Operator::SaveState,
        cmyk(0.25, 0.0, 0.0, 0.0),
        Operator::Fill,
        Operator::RestoreState,
        Operator::Fill,
        Operator::RestoreState,
        Operator::Fill,
    ];
    let doc = page_doc(Object::Null, Content::Operators(ops), &[]);
    assert_eq!(fills(&doc, "Cyan"), vec![Some(0.25), Some(0.5), Some(0.5)]);
}

#[test]
fn a_space_starts_with_its_initial_colour() {
    let icc = |id: usize| Object::Array(vec![name("ICCBased"), reference(id)]);
    let res = spaces(vec![
        ("N", device_n(&["A", "B"])),
        ("Icc4", icc(7)),
        ("Icc3", icc(8)),
        ("Icc", icc(9)),
        ("IccOdd", icc(10)),
    ]);
    let profile = |n: i64| Object::Stream { dict: dict(vec![("N", Object::Integer(n))]), data: vec![] };
    let ops = vec![
        cs("DeviceCMYK"),
        Operator::Fill,
        cs("N"),
        Operator::Fill,
        cs("Icc4"),
        Operator::Fill,
        cs("Icc3"),
        Operator::Fill,
        cs("Icc"),
        Operator::Fill,
        cs("IccOdd"),
        Operator::Fill,
    ];
    let mut doc = page_doc(res, Content::Operators(ops), &[]);
    doc.add_object(7, profile(4));
    doc.add_object(8, profile(3));
    doc.add_object(10, profile(2));
    assert_eq!(fills(&doc, "Black"), vec![Some(1.0), None, Some(1.0), None, Some(1.0), None]);
    assert_eq!(fills(&doc, "Cyan"), vec![Some(0.0), None, Some(0.0), None, Some(0.0), None]);
    assert_eq!(fills(&doc, "B"), vec![None, Some(1.0), None, None, None, None]);
}

#[test]
fn a_default_space_takes_the_place_of_the_device_space() {
    let res = spaces(vec![("DefaultCMYK", device_n(&["A", "B", "C", "D"]))]);
    let ops = vec![cmyk(0.25, 0.5, 0.75, 1.0), Operator::Fill];
    let doc = page_doc(res, Content::Operators(ops), &[]);
    assert_eq!(fills(&doc, "Cyan"), vec![None]);
    assert_eq!(fills(&doc, "B"), vec![Some(0.5)]);
}

#[test]
fn a_space_that_stands_for_itself_is_unknown() {
    let res = spaces(vec![("X", name("Y")), ("Y", name("X"))]);
    let doc = page_doc(res, Content::Operators(vec![cs("X"), scn(&[1.0]), Operator::Fill]), &[]);
    assert_eq!(fills(&doc, "X"), vec![None]);
    assert!(collect_referenced_inks(&doc, 0).unwrap().is_empty());
}

#[test]
fn a_form_is_drawn_with_the_colours_where_it_is_drawn() {
    let res = dictionary(vec![("XObject", dictionary(vec![("F", reference(5))]))]);
    let ops = vec![cmyk(0.5, 0.0, 0.0, 0.0), draw("F"), Operator::Fill];
    let mut doc = page_doc(res, Content::Operators(ops), &[]);
    let matrix = Object::Array(vec![Object::Integer(2), Object::Null, Object::Real("0.5".to_string())]);
    doc.add_object(
        5,
        Object::Stream { dict: dict(vec![("Subtype", name("Form")), ("Matrix", matrix)]), data: vec![] },
    );
    doc.add_content(5, Content::Operators(vec![Operator::Fill, cmyk(0.25, 0.0, 0.0, 0.0), Operator::Fill, draw("F")]));
    assert_eq!(fills(&doc, "Cyan"), vec![Some(0.5), Some(0.25), Some(0.5)]);
    let list = plan_separation(&doc, 0, "Cyan").unwrap();
    let shapes: Vec<&str> = list
        .iter()
        .map(|c| match c {
            PlateCommand::BeginForm(_) => "begin",
            PlateCommand::EndForm => "end",
            PlateCommand::Paint { .. } => "paint",
            _ => "state",
        })
        .collect();
    assert_eq!(shapes, vec!["state", "begin", "paint", "state", "paint", "end", "paint"]);
}

#[test]
fn a_form_matrix_has_six_numbers() {
    let d = dict(vec![(
        "Matrix",
        Object::Array(vec![Object::Integer(2), Object::Null, Object::Real("0.5".to_string()), name("x")]),
    )]);
    let m = parse_form_matrix(&d);
    assert_eq!(m.len(), 6);
    assert!(matches!(m[0], Object::Integer(2)));
    assert!(matches!(m[1], Object::Integer(0)));
    assert!(matches!(&m[2], Object::Real(t) if t == "0.5"));
    assert!(matches!(m[3], Object::Integer(1)));
    assert!(matches!(m[4], Object::Integer(0)) && matches!(m[5], Object::Integer(0)));
    let identity = parse_form_matrix(&Dict::new());
    assert!(matches!(identity[0], Object::Integer(1)) && matches!(identity[3], Object::Integer(1)));
}

#[test]
fn text_shows_inside_text_objects_only() {
    let tj = |t: &str| Operator::Tj { text: t.as_bytes().to_vec() };
    let ops = vec![
        cmyk(0.5, 0.0, 0.0, 0.0),
        tj("no"),
        Operator::TStar,
        Operator::Td { tx: num(1.0), ty: num(1.0) },
        Operator::BeginText,
        tj("yes"),
        Operator::Quote { text: b"line".to_vec() },
        Operator::TJ {
            array: vec![
                TextElement::String(b"a".to_vec()),
                TextElement::Offset(num(100.0)),
                TextElement::String(b"b".to_vec()),
            ],
        },
        Operator::Tr { render: 3 },
        Operator::DoubleQuote { word_space: num(1.0), char_space: num(2.0), text: b"unseen".to_vec() },
        Operator::EndText,
        tj("no"),
    ];
    let doc = page_doc(Object::Null, Content::Operators(ops), &[]);
    let told = |ink: &str| -> Vec<String> {
        plan_separation(&doc, 0, ink)
            .unwrap()
            .iter()
            .filter_map(|c| match c {
                PlateCommand::Show { text, tint } => {
                    Some(format!("{}:{}", String::from_utf8_lossy(text), tint.is_some()))
                },
                PlateCommand::NextLine => Some("line".to_string()),
                PlateCommand::BeginRun => Some("[".to_string()),
                PlateCommand::EndRun => Some("]".to_string()),
                PlateCommand::Shift(s) => Some(format!("{}", f32::from_bits(s.bits))),
                PlateCommand::Spacing { .. } => Some("spacing".to_string()),
                _ => None,
            })
            .collect()
    };
    assert_eq!(
        told("Cyan"),
        vec![
            "yes:true", "line", "line:true", "[", "a:true", "100", "b:true", "]", "spacing", "line",
            "unseen:false"
        ]
    );
    assert!(told("Gold").iter().all(|t| !t.ends_with("true")));
}

#[test]
fn graphics_state_dictionaries_are_looked_up() {
    let res = dictionary(vec![("ExtGState", dictionary(vec![("G", Object::Integer(7))]))]);
    let ops = vec![
        Operator::SetExtGState { dict_name: "G".to_string() },
        Operator::SetExtGState { dict_name: "H".to_string() },
    ];
    let doc = page_doc(res, Content::Operators(ops), &[]);
    let list = plan_separation(&doc, 0, "Cyan").unwrap();
    assert!(matches!(list[0], PlateCommand::ExtGState(Some(Object::Integer(7)))));
    assert!(matches!(list[1], PlateCommand::ExtGState(None)));
}

#[test]
fn content_that_cannot_be_read_is_an_error() {
    let doc = page_doc(Object::Null, Content::Undecodable, &[]);
    assert!(matches!(plan_separation(&doc, 0, "Cyan"), Err(Error::UndecodableStream)));
    assert!(matches!(collect_referenced_inks(&doc, 0), Err(Error::UndecodableStream)));
    let doc = page_doc(Object::Null, Content::Unparsable, &[]);
    assert!(matches!(plan_separation(&doc, 0, "Cyan"), Err(Error::UnparsableContent)));
    assert!(matches!(plan_separation(&doc, 4, "Cyan"), Err(Error::PageNotFound(4))));
    let lost = dictionary(vec![("ColorSpace", reference(99))]);
    let doc = page_doc(lost, Content::Operators(vec![]), &[]);
    assert!(matches!(plan_separation(&doc, 0, "Cyan"), Err(Error::ObjectNotFound(99))));
}

#[test]
fn a_form_that_cannot_be_read_is_an_error() {
    let res = dictionary(vec![("XObject", dictionary(vec![("F", reference(5))]))]);
    let mut doc = page_doc(res, Content::Operators(vec![draw("F")]), &[]);
    doc.add_object(5, Object::Stream { dict: dict(vec![("Subtype", name("Form"))]), data: vec![] });
    assert!(matches!(plan_separation(&doc, 0, "Cyan"), Err(Error::UndecodableStream)));
    assert!(matches!(collect_referenced_inks(&doc, 0), Err(Error::UndecodableStream)));
    doc.add_content(5, Content::Unparsable);
    assert!(matches!(plan_separation(&doc, 0, "Cyan"), Err(Error::UnparsableContent)));
    assert!(collect_referenced_inks(&doc, 0).unwrap().is_empty());
}

#[test]
fn plates_hold_the_red_components() {
    let plate = plate_from_pixels("Cyan", &vec![1, 2, 3, 4, 5, 6, 7, 8, 9, 10, 11, 12], 3, 1);
    assert_eq!(plate.data, vec![1, 5, 9]);
    assert_eq!((plate.width, plate.height), (3, 1));
    assert_eq!(plate.ink_name, "Cyan");
    let empty = empty_plate_for("Gold", 3, 2);
    assert_eq!(empty.data, vec![0; 6]);
}

/// Paint every pixel of the plate with the last tint that is filled.
fn flood(list: &Vec<PlateCommand<'_>>, pixels: Vec<u8>) -> Result<Vec<u8>, Error> {
    let mut pixels = pixels;
    assert!(pixels.iter().all(|b| *b == 0), "nothing is painted yet");
    for c in list {
        if let PlateCommand::Paint { fill: Some(tint), .. } = c {
            let gray = (f32::from_bits(tint.bits) * 255.0).round() as u8;
            for p in pixels.chunks_mut(4) {
                p.copy_from_slice(&[gray, gray, gray, 255]);
            }
        }
    }
    Ok(pixels)
}

#[test]
fn a_plate_is_rendered_by_carrying_out_its_commands() {
    let doc = page_doc(Object::Null, Content::Operators(vec![cmyk(1.0, 0.2, 0.0, 0.0), Operator::Fill]), &[]);
    let plate = render_separation(&doc, 0, "Cyan", 3, 2, flood).unwrap();
    assert_eq!(plate.data, vec![255; 6]);
    let plate = render_separation(&doc, 0, "Magenta", 3, 2, flood).unwrap();
    assert_eq!(plate.data, vec![51; 6]);
    let plate = render_separation(&doc, 0, "Gold", 3, 2, flood).unwrap();
    assert_eq!(plate.data, vec![0; 6]);
}

#[test]
fn a_plate_of_no_size_cannot_be_rendered() {
    let doc = page_doc(Object::Null, Content::Operators(vec![]), &[]);
    for (w, h) in [(0, 5), (5, 0), (0x2000_0000, 1)] {
        match render_separation(&doc, 0, "Cyan", w, h, flood) {
            Err(Error::InvalidPdf(m)) => assert_eq!(m, "Failed to create separation pixmap"),
            other => panic!("{other:?}"),
        }
    }
    assert!(matches!(render_separation(&doc, 3, "Cyan", 5, 5, flood), Err(Error::PageNotFound(3))));
}

#[test]
fn all_plates_of_a_page_are_rendered_in_order() {
    let res = spaces(vec![("S", separation("Dieline"))]);
    let ops = vec![cs("S"), Operator::Fill];
    let doc = page_doc(res, Content::Operators(ops), &["Dieline", "Gold"]);
    let calls = std::cell::Cell::new(0);
    let paint = |list: &Vec<PlateCommand<'_>>, pixels: Vec<u8>| {
        calls.set(calls.get() + 1);
        flood(list, pixels)
    };
    let plates = render_separations(&doc, 0, 2, 2, paint).unwrap();
    let names: Vec<&str> = plates.iter().map(|p| p.ink_name.as_str()).collect();
    assert_eq!(names, vec!["Cyan", "Magenta", "Yellow", "Black", "Dieline", "Gold"]);
    let covered: Vec<bool> = plates.iter().map(|p: &SeparationPlate| p.data.iter().any(|b| *b != 0)).collect();
    assert_eq!(covered, vec![false, false, false, false, true, false]);
    assert!(plates.iter().all(|p| p.data.len() == 4 && p.width == 2 && p.height == 2));
    assert_eq!(calls.get(), 1, "only the plate of the ink that is used is painted");
    assert!(matches!(render_separations(&doc, 1, 2, 2, flood), Err(Error::PageNotFound(1))));
}

#[test]
fn what_the_painter_refuses_is_handed_on() {
    let doc = page_doc(Object::Null, Content::Operators(vec![cmyk(1.0, 0.0, 0.0, 0.0), Operator::Fill]), &[]);
    let refuse = |_: &Vec<PlateCommand<'_>>, _: Vec<u8>| Err(Error::InvalidPdf("no".to_string()));
    assert!(render_separation(&doc, 0, "Cyan", 2, 2, refuse).is_err());
    assert!(render_separations(&doc, 0, 2, 2, refuse).is_err());
}

#[test]
fn masks_are_laid_over_each_other() {
    assert_eq!(combine_masks(&[255, 255, 128, 0, 100], &[255, 7, 128, 255, 51]), vec![255, 7, 64, 0, 20]);
}

#[test]
fn codes_are_one_or_two_bytes() {
    assert_eq!(glyph_codes(&[1, 2, 3], false), vec![1, 2, 3]);
    assert_eq!(glyph_codes(&[1, 2, 3], true), vec![0x0102]);
    assert_eq!(glyph_codes(&[0xff, 0xfe, 0, 3], true), vec![0xfffe, 3]);
}

#[test]
fn pages_are_turned_by_quarters() {
    assert_eq!(orientation(0), Orientation::Upright);
    assert_eq!(orientation(90), Orientation::Quarter);
    assert_eq!(orientation(540), Orientation::Half);
    assert_eq!(orientation(270), Orientation::ThreeQuarter);
    assert_eq!(orientation(45), Orientation::Upright);
    assert_eq!(orientation(-90), Orientation::Upright);
}

#[test]
fn fonts_are_found_in_the_resources() {
    let res = dictionary(vec![("Font", reference(3))]);
    let mut doc = page_doc(Object::Null, Content::Operators(vec![]), &[]);
    assert!(load_fonts(&doc, &res).is_none());
    doc.add_object(3, dictionary(vec![("F1", Object::Null)]));
    assert!(load_fonts(&doc, &res).unwrap().contains_key("F1"));
    assert!(load_fonts(&doc, &Object::Null).is_none());
}

#[test]
fn an_ink_that_is_not_used_is_not_painted() {
    let inner = dictionary(vec![("ColorSpace", dictionary(vec![("S", separation("Foil"))]))]);
    let res = dictionary(vec![
        ("ColorSpace", dictionary(vec![("S", separation("Outer")), ("U", separation("Gold"))])),
        ("XObject", dictionary(vec![("F", reference(5))])),
    ]);
    let ops = vec![cmyk(0.1, 0.2, 0.3, 0.4), Operator::Fill, draw("F"), Operator::FillStroke];
    let mut doc = page_doc(res, Content::Operators(ops), &["Gold", "Outer", "Foil"]);
    doc.add_object(
        5,
        Object::Stream { dict: dict(vec![("Subtype", name("Form")), ("Resources", inner)]), data: vec![] },
    );
    doc.add_content(5, Content::Operators(vec![cs("S"), Operator::Fill]));
    let used = collect_referenced_inks(&doc, 0).unwrap();
    for ink in collect_page_inks(&doc, 0).unwrap() {
        let painted = paints(&doc, &ink).iter().any(|(fill, stroke)| fill.is_some() || stroke.is_some());
        assert_eq!(painted, used.contains(&ink), "{ink}");
    }
}

fn gray(v: f32) -> Operator {
    Operator::SetFillGray { gray: num(v) }
}

#[test]
fn a_tint_lies_between_none_and_all() {
    let res = spaces(vec![("S", separation("Spot")), ("P", name("DeviceCMYK"))]);
    let ops = vec![
        cmyk(1.5, -0.5, 0.25, -0.0),
        Operator::Fill,
        cs("S"),
        scn(&[7.0]),
        Operator::Fill,
        scn(&[-7.0]),
        Operator::Fill,
        cs("P"),
        scn(&[0.0, 2.0, 0.0, 0.0]),
        Operator::Fill,
    ];
    let doc = page_doc(res, Content::Operators(ops), &[]);
    assert_eq!(fills(&doc, "Cyan"), vec![Some(1.0), None, None, Some(0.0)]);
    assert_eq!(fills(&doc, "Magenta"), vec![Some(0.0), None, None, Some(1.0)]);
    assert_eq!(fills(&doc, "Yellow")[0], Some(0.25));
    assert_eq!(fills(&doc, "Spot"), vec![None, Some(1.0), Some(0.0), None]);
}

#[test]
fn a_process_space_paints_under_any_name() {
    let res = spaces(vec![("CS0", name("DeviceCMYK"))]);
    let ops = vec![cs("CS0"), scn(&[1.0, 0.0, 0.0, 0.0]), Operator::Fill];
    let doc = page_doc(res, Content::Operators(ops), &[]);
    assert_eq!(fills(&doc, "Cyan"), vec![Some(1.0)]);
    assert_eq!(fills(&doc, "Black"), vec![Some(0.0)]);
    let plate = render_separation(&doc, 0, "Cyan", 4, 4, flood).unwrap();
    assert_eq!(plate.data, vec![255; 16]);
}

#[test]
fn another_form_of_the_same_name_is_read_too() {
    // Both the page and the form draw something that they call F.
    let inner = dictionary(vec![
        ("ColorSpace", dictionary(vec![("S", separation("Foil"))])),
        ("XObject", dictionary(vec![("F", reference(6))])),
    ]);
    let inmost = dictionary(vec![("ColorSpace", dictionary(vec![("S", separation("Varnish"))]))]);
    let res = dictionary(vec![("XObject", dictionary(vec![("F", reference(5))]))]);
    let mut doc = page_doc(res, Content::Operators(vec![draw("F")]), &["Foil", "Varnish"]);
    let form = |resources: Object| Object::Stream {
        dict: dict(vec![("Subtype", name("Form")), ("Resources", resources)]),
        data: vec![],
    };
    doc.add_object(5, form(inner));
    doc.add_content(5, Content::Operators(vec![cs("S"), draw("F")]));
    doc.add_object(6, form(inmost));
    doc.add_content(6, Content::Operators(vec![cs("S"), Operator::Fill]));
    let used = collect_referenced_inks(&doc, 0).unwrap();
    assert!(used.contains(&"Foil".to_string()) && used.contains(&"Varnish".to_string()));
    let plates = render_separations(&doc, 0, 1, 1, flood).unwrap();
    assert_eq!(plates[5].ink_name, "Varnish");
    assert_eq!(plates[5].data, vec![255]);
}

#[test]
fn inks_of_default_spaces_are_referenced() {
    let res = spaces(vec![("DefaultGray", separation("Spot"))]);
    let doc = page_doc(res, Content::Operators(vec![gray(0.2), Operator::Fill]), &["Spot"]);
    assert!(collect_referenced_inks(&doc, 0).unwrap().contains(&"Spot".to_string()));
    // A plate is the same whether it is rendered with the others or alone.
    let plates = render_separations(&doc, 0, 2, 1, flood).unwrap();
    for plate in &plates {
        let alone = render_separation(&doc, 0, &plate.ink_name, 2, 1, flood).unwrap();
        assert_eq!(plate.data, alone.data, "{}", plate.ink_name);
    }
    assert_eq!(plates[4].data, vec![51, 51]);
}

#[test]
fn the_initial_colour_counts_as_used() {
    let res = spaces(vec![("DefaultGray", separation("Spot"))]);
    let doc = page_doc(res, Content::Operators(vec![Operator::Fill]), &["Spot"]);
    assert!(collect_referenced_inks(&doc, 0).unwrap().contains(&"Spot".to_string()));
}

#[test]
fn a_size_that_cannot_be_painted_on_is_an_error() {
    let doc = page_doc(Object::Null, Content::Operators(vec![cmyk(1.0, 0.0, 0.0, 0.0), Operator::Fill]), &[]);
    match render_separation(&doc, 0, "Cyan", u32::MAX, u32::MAX, flood) {
        Err(Error::InvalidPdf(m)) => assert_eq!(m, "Failed to create separation pixmap"),
        other => panic!("{other:?}"),
    }
    assert!(matches!(render_separation(&doc, 1, "Cyan", u32::MAX, u32::MAX, flood), Err(Error::PageNotFound(1))));
}

#[test]
fn the_plate_of_an_ink_that_is_not_there_is_all_zeros() {
    let doc = page_doc(Object::Null, Content::Operators(vec![cmyk(1.0, 1.0, 1.0, 1.0), Operator::Fill]), &[]);
    let plate = render_separation(&doc, 0, "Gold", 3, 3, flood).unwrap();
    assert_eq!(plate.clone().data, vec![0; 9]);
}

#[test]
fn a_form_that_stands_in_the_resources_is_drawn() {
    let form = Object::Stream { dict: dict(vec![("Subtype", name("Form"))]), data: b"f".to_vec() };
    let other = Object::Stream { dict: dict(vec![("Subtype", name("Form"))]), data: b"g".to_vec() };
    let res = dictionary(vec![("XObject", dictionary(vec![("F", form.clone()), ("G", other)]))]);
    let mut doc = page_doc(res, Content::Operators(vec![cmyk(0.5, 0.0, 0.0, 0.0), draw("F")]), &[]);
    // It draws itself, which is not done again.
    doc.add_direct_stream(77, form, Content::Operators(vec![Operator::Fill, draw("F")]));
    assert_eq!(fills(&doc, "Cyan"), vec![Some(0.5)]);
    assert!(collect_referenced_inks(&doc, 0).unwrap().contains(&"Cyan".to_string()));
    // One whose content was not decoded is an error.
    let mut undecoded = page_doc(
        dictionary(vec![(
            "XObject",
            dictionary(vec![(
                "G",
                Object::Stream { dict: dict(vec![("Subtype", name("Form"))]), data: b"g".to_vec() },
            )]),
        )]),
        Content::Operators(vec![draw("G")]),
        &[],
    );
    undecoded.add_content(78, Content::Operators(Vec::new()));
    assert!(matches!(plan_separation(&undecoded, 0, "Cyan"), Err(Error::UndecodableStream)));
}
