//! Page subsetting: keep only the selected pages, carrying only the objects that they need and
//! collapsing duplicates.
//!
//! Each fixture is a small file written by hand. It is read by the reader below, subset, and the
//! result is read again.

use std::collections::{BTreeSet, HashSet};

use pdf_subset::document::{Content, Error, Operator, PdfDocument, Scalar, SourcePage, TextElement};
use pdf_subset::object::{Dict, Object, ObjectRef};
use pdf_subset::subset::canon::canonical_bytes;
use pdf_subset::subset::rebuild::{subset_pdf_bytes, subset_to_bytes, PdfRebuilder};
use pdf_subset::subset::resources::{scan_used, Category, UsedNames};
use pdf_subset::subset::{Builder, SignaturePolicy, SubsetOptions, SubsetReport};

struct Reader<'a> {
    bytes: &'a [u8],
    at: usize,
}

impl<'a> Reader<'a> {
    fn new(bytes: &'a [u8]) -> Self {
        Reader { bytes, at: 0 }
    }

    fn peek(&self) -> Option<u8> {
        self.bytes.get(self.at).copied()
    }

    fn skip_space(&mut self) {
        while let Some(b) = self.peek() {
            if b == b'%' {
                while let Some(c) = self.peek() {
                    if c == b'\n' || c == b'\r' {
                        break;
                    }
                    self.at += 1;
                }
            } else if b.is_ascii_whitespace() || b == 0 {
                self.at += 1;
            } else {
                break;
            }
        }
    }

    fn starts_with(&self, word: &[u8]) -> bool {
        self.bytes[self.at..].starts_with(word)
    }

    fn is_regular(b: u8) -> bool {
        !b.is_ascii_whitespace() && !b"()<>[]{}/%".contains(&b)
    }

    fn word(&mut self) -> Vec<u8> {
        let start = self.at;
        while let Some(b) = self.peek() {
            if !Self::is_regular(b) {
                break;
            }
            self.at += 1;
        }
        self.bytes[start..self.at].to_vec()
    }

    fn number(&mut self) -> Option<Object> {
        let text = String::from_utf8(self.word()).ok()?;
        if let Ok(i) = text.parse::<i64>() {
            return Some(Object::Integer(i));
        }
        text.parse::<f64>().ok().map(|r| Object::Real(r.to_string()))
    }

    fn name(&mut self) -> String {
        self.at += 1;
        let raw = self.word();
        let mut out = Vec::new();
        let mut i = 0;
        while i < raw.len() {
            if raw[i] == b'#' && i + 2 < raw.len() {
                let hex = std::str::from_utf8(&raw[i + 1..i + 3]).unwrap();
                out.push(u8::from_str_radix(hex, 16).unwrap());
                i += 3;
            } else {
                out.push(raw[i]);
                i += 1;
            }
        }
        String::from_utf8(out).unwrap()
    }

    fn literal(&mut self) -> Vec<u8> {
        self.at += 1;
        let mut depth = 1;
        let mut out = Vec::new();
        while let Some(b) = self.peek() {
            self.at += 1;
            match b {
                b'\\' => {
                    let c = self.peek().unwrap();
                    self.at += 1;
                    out.push(match c {
                        b'n' => b'\n',
                        b'r' => b'\r',
                        other => other,
                    });
                },
                b'(' => {
                    depth += 1;
                    out.push(b);
                },
                b')' => {
                    depth -= 1;
                    if depth == 0 {
                        break;
                    }
                    out.push(b);
                },
                _ => out.push(b),
            }
        }
        out
    }

    fn hex(&mut self) -> Vec<u8> {
        self.at += 1;
        let mut digits = String::new();
        while let Some(b) = self.peek() {
            self.at += 1;
            if b == b'>' {
                break;
            }
            if b.is_ascii_hexdigit() {
                digits.push(b as char);
            }
        }
        if digits.len() % 2 == 1 {
            digits.push('0');
        }
        (0..digits.len() / 2).map(|i| u8::from_str_radix(&digits[2 * i..2 * i + 2], 16).unwrap()).collect()
    }

    fn dict(&mut self) -> Dict {
        self.at += 2;
        let mut d = Dict::new();
        loop {
            self.skip_space();
            if self.starts_with(b">>") {
                self.at += 2;
                return d;
            }
            let key = self.name();
            let value = self.object().expect("a value");
            d.insert(&key, value);
        }
    }

    /// The next object, or `None` where a word stands that is no object.
    fn object(&mut self) -> Option<Object> {
        self.skip_space();
        let b = self.peek()?;
        if self.starts_with(b"<<") {
            return Some(Object::Dictionary(self.dict()));
        }
        match b {
            b'/' => Some(Object::Name(self.name())),
            b'(' => Some(Object::String(self.literal())),
            b'<' => Some(Object::String(self.hex())),
            b'[' => {
                self.at += 1;
                let mut items = Vec::new();
                loop {
                    self.skip_space();
                    if self.peek() == Some(b']') {
                        self.at += 1;
                        return Some(Object::Array(items));
                    }
                    items.push(self.object().expect("an item"));
                }
            },
            b'0'..=b'9' | b'+' | b'-' | b'.' => {
                let first = self.number()?;
                // Two numbers and an R make a reference.
                if let Object::Integer(id) = &first {
                    let back = self.at;
                    self.skip_space();
                    if let Some(c) = self.peek() {
                        if c.is_ascii_digit() {
                            if let Some(Object::Integer(gen)) = self.number() {
                                self.skip_space();
                                if self.word() == b"R" {
                                    return Some(Object::Reference(ObjectRef::new(*id as usize, gen as u16)));
                                }
                            }
                        }
                    }
                    self.at = back;
                }
                Some(first)
            },
            _ => {
                let back = self.at;
                match self.word().as_slice() {
                    b"true" => Some(Object::Boolean(true)),
                    b"false" => Some(Object::Boolean(false)),
                    b"null" => Some(Object::Null),
                    _ => {
                        self.at = back;
                        None
                    },
                }
            },
        }
    }
}

fn scalar(o: &Object) -> Scalar {
    let value: f32 = match o {
        Object::Integer(i) => *i as f32,
        Object::Real(t) => t.parse().unwrap(),
        other => panic!("no number: {other:?}"),
    };
    Scalar { bits: value.to_bits() }
}

fn name_of(o: &Object) -> String {
    o.as_name().expect("a name").to_string()
}

/// Read a content stream.
fn read_content(data: &[u8]) -> Vec<Operator> {
    let mut r = Reader::new(data);
    let mut ops = Vec::new();
    let mut args: Vec<Object> = Vec::new();
    loop {
        r.skip_space();
        if r.peek().is_none() {
            return ops;
        }
        if let Some(o) = r.object() {
            args.push(o);
            continue;
        }
        let word = r.word();
        let op = match word.as_slice() {
            b"q" => Operator::SaveState,
            b"Q" => Operator::RestoreState,
            b"cm" => Operator::Cm {
                a: scalar(&args[0]),
                b: scalar(&args[1]),
                c: scalar(&args[2]),
                d: scalar(&args[3]),
                e: scalar(&args[4]),
                f: scalar(&args[5]),
            },
            b"BT" => Operator::BeginText,
            b"ET" => Operator::EndText,
            b"Tf" => Operator::Tf { font: name_of(&args[0]), size: scalar(&args[1]) },
            b"Td" => Operator::Td { tx: scalar(&args[0]), ty: scalar(&args[1]) },
            b"Tj" => Operator::Tj { text: args[0].as_string().unwrap().to_vec() },
            b"Do" => Operator::Do { name: name_of(&args[0]) },
            b"gs" => Operator::SetExtGState { dict_name: name_of(&args[0]) },
            b"cs" => Operator::SetFillColorSpace { name: name_of(&args[0]) },
            b"sh" => Operator::PaintShading { name: name_of(&args[0]) },
            b"BDC" => Operator::BeginMarkedContentDict { tag: name_of(&args[0]), properties: args[1].clone() },
            b"DP" => Operator::MarkedContentPointDict { tag: name_of(&args[0]), properties: args[1].clone() },
            b"k" => Operator::SetFillCmyk {
                c: scalar(&args[0]),
                m: scalar(&args[1]),
                y: scalar(&args[2]),
                k: scalar(&args[3]),
            },
            b"rg" => Operator::SetFillRgb { r: scalar(&args[0]), g: scalar(&args[1]), b: scalar(&args[2]) },
            b"f" => Operator::Fill,
            _ => Operator::Other,
        };
        ops.push(op);
        args.clear();
    }
}

fn deref<'b>(objects: &'b [(usize, Object)], o: &'b Object) -> Option<&'b Object> {
    match o {
        Object::Reference(r) => objects.iter().find(|(id, _)| *id == r.id).map(|(_, x)| x),
        other => Some(other),
    }
}

const INHERITED: [&str; 4] = ["Resources", "MediaBox", "CropBox", "Rotate"];

fn collect_pages(objects: &[(usize, Object)], node: &Object, handed_down: &Dict, out: &mut Vec<Dict>) {
    let Some(d) = deref(objects, node).and_then(|o| o.as_dict()) else {
        return;
    };
    let mut own = d.clone();
    for key in INHERITED {
        if !own.contains_key(key) {
            if let Some(v) = handed_down.get(key) {
                own.insert(key, v.clone());
            }
        }
    }
    if d.is_name("Type", "Pages") {
        if let Some(kids) = d.get("Kids").and_then(|k| k.as_array()) {
            for kid in kids {
                collect_pages(objects, kid, &own, out);
            }
        }
    } else {
        out.push(own);
    }
}

/// The data of the content streams of a page, put together.
fn content_data(objects: &[(usize, Object)], page: &Dict) -> Vec<u8> {
    let mut data = Vec::new();
    if let Some(contents) = page.get("Contents").and_then(|c| deref(objects, c)) {
        let parts: Vec<&Object> = match contents {
            Object::Array(a) => a.iter().filter_map(|o| deref(objects, o)).collect(),
            other => vec![other],
        };
        for part in parts {
            if let Object::Stream { data: d, .. } = part {
                data.extend_from_slice(d);
                data.push(b'\n');
            }
        }
    }
    data
}

/// Read a file.
fn read_pdf(bytes: &[u8]) -> Result<PdfDocument, Error> {
    let mut r = Reader::new(bytes);
    let mut objects: Vec<(usize, Object)> = Vec::new();
    loop {
        r.skip_space();
        if r.peek().is_none() {
            return Err(Error::InvalidPdf("no cross-reference table".to_string()));
        }
        if r.starts_with(b"xref") {
            break;
        }
        let id = match r.number() {
            Some(Object::Integer(i)) => i as usize,
            _ => return Err(Error::InvalidPdf("no object number".to_string())),
        };
        r.skip_space();
        r.number();
        r.skip_space();
        assert_eq!(r.word(), b"obj");
        let mut object = r.object().expect("an object");
        r.skip_space();
        if r.starts_with(b"stream") {
            r.at += b"stream\n".len();
            let Object::Dictionary(dict) = object else {
                panic!("a stream without a dictionary");
            };
            let length = dict.get("Length").and_then(|l| l.as_integer()).expect("a length") as usize;
            let data = r.bytes[r.at..r.at + length].to_vec();
            r.at += length;
            r.skip_space();
            assert_eq!(r.word(), b"endstream");
            object = Object::Stream { dict, data };
            r.skip_space();
        }
        assert_eq!(r.word(), b"endobj");
        objects.push((id, object));
    }
    let at = bytes.windows(7).rposition(|w| w == b"trailer").expect("a trailer");
    let mut t = Reader { bytes, at: at + 7 };
    let trailer = t.object().expect("the trailer");

    let mut pages = Vec::new();
    let root = trailer.as_dict().and_then(|d| d.get("Root")).and_then(|o| deref(&objects, o));
    if let Some(node) = root.and_then(|c| c.as_dict()).and_then(|c| c.get("Pages")) {
        collect_pages(&objects, node, &Dict::new(), &mut pages);
    }
    let mut doc = PdfDocument::new(trailer.clone());
    for page in pages {
        let content = Content::Operators(read_content(&content_data(&objects, &page)));
        let resources = match page.get("Resources").and_then(|o| deref(&objects, o)) {
            Some(o) => o.clone(),
            None => Object::Dictionary(Dict::new()),
        };
        doc.add_page(SourcePage { object: Object::Dictionary(page), content, resources, inks: Vec::new() });
    }
    for (id, object) in objects {
        if let Object::Stream { dict, data } = &object {
            if dict.is_name("Subtype", "Form") {
                doc.add_content(id, Content::Operators(read_content(data)));
            }
        }
        doc.add_object(id, object);
    }
    Ok(doc)
}

fn load(doc: &PdfDocument, id: usize) -> Option<&Object> {
    doc.load_object(ObjectRef::new(id, 0))
}

/// The text that a page shows.
fn extract_text(doc: &PdfDocument, page: usize) -> String {
    let mut text = Vec::new();
    if let Content::Operators(ops) = &doc.get_page(page).unwrap().content {
        for op in ops {
            match op {
                Operator::Tj { text: t } => text.extend_from_slice(t),
                Operator::TJ { array } => {
                    for piece in array {
                        if let TextElement::String(t) = piece {
                            text.extend_from_slice(t);
                        }
                    }
                },
                _ => {},
            }
        }
    }
    String::from_utf8(text).unwrap()
}

fn catalog(doc: &PdfDocument) -> &Dict {
    let root = doc.trailer().as_dict().and_then(|t| t.get_ref("Root")).expect("a root");
    doc.load_object(root).and_then(|o| o.as_dict()).expect("a catalog")
}

fn page_dict(doc: &PdfDocument, page: usize) -> &Dict {
    doc.get_page(page).expect("get_page").object.as_dict().expect("page dict")
}

/// Values of a dictionary.
fn values(d: &Dict) -> Vec<&Object> {
    (0..d.len()).map(|i| d.value_at(i)).collect()
}

/// Resolve a value that may be an indirect reference.
fn resolve<'b>(doc: &'b PdfDocument, o: &'b Object) -> Option<&'b Object> {
    doc.resolve_object(o).ok()
}

fn holds(bytes: &[u8], word: &[u8]) -> bool {
    bytes.windows(word.len()).any(|w| w == word)
}

fn subset_first(doc: &PdfDocument, pages: &[usize], opts: SubsetOptions) -> Result<(Vec<u8>, SubsetReport), Error> {
    let picks: Vec<(usize, usize)> = pages.iter().map(|&p| (0usize, p)).collect();
    subset_to_bytes(&[doc], &picks, opts)
}

/// A file of the given objects, whose catalog is object 1.
fn write_fixture(objects: &[(usize, Vec<u8>)]) -> Vec<u8> {
    let max_id = objects.iter().map(|(id, _)| *id).max().unwrap();
    let mut out = b"%PDF-1.7\n%\xE2\xE3\xCF\xD3\n".to_vec();
    let mut offsets = vec![None; max_id + 1];
    for (id, body) in objects {
        offsets[*id] = Some(out.len());
        out.extend_from_slice(format!("{id} 0 obj\n").as_bytes());
        out.extend_from_slice(body);
        out.extend_from_slice(b"\nendobj\n");
    }
    let xref_start = out.len();
    out.extend_from_slice(format!("xref\n0 {}\n", max_id + 1).as_bytes());
    out.extend_from_slice(b"0000000000 65535 f \r\n");
    for offset in &offsets[1..] {
        match offset {
            Some(at) => out.extend_from_slice(format!("{at:010} 00000 n \r\n").as_bytes()),
            None => out.extend_from_slice(b"0000000000 00000 f \r\n"),
        }
    }
    out.extend_from_slice(
        format!("trailer\n<< /Size {} /Root 1 0 R >>\nstartxref\n{}\n%%EOF\n", max_id + 1, xref_start)
            .as_bytes(),
    );
    out
}

fn stream_obj(dict_inner: &str, data: &[u8]) -> Vec<u8> {
    let mut v = format!("<< {} /Length {} >>\nstream\n", dict_inner, data.len()).into_bytes();
    v.extend_from_slice(data);
    v.extend_from_slice(b"\nendstream");
    v
}

/// Build a 3-page PDF with inherited shared resources containing garbage and
/// duplicate images.
///
/// Object map:
///  1 Catalog, 2 Pages(+inherited /Resources 9, /MediaBox), 3/5/7 Pages,
///  4/6/8 content streams, 9 shared Resources,
///  10 FUsed(Helvetica), 11 FUnused(Courier — garbage),
///  12 ImA, 13 ImB (byte-identical to 12 — dedup), 14 ImUnused (garbage).
///
///  Page1 uses FUsed+ImA, Page2 uses FUsed+ImB, Page3 uses FUsed only.
fn build_bloated_fixture() -> Vec<u8> {

    let content1 =
        b"BT /FUsed 12 Tf 20 100 Td (Page1) Tj ET\nq 50 0 0 50 20 20 cm /ImA Do Q".to_vec();
    let content2 =
        b"BT /FUsed 12 Tf 20 100 Td (Page2) Tj ET\nq 50 0 0 50 20 20 cm /ImB Do Q".to_vec();
    let content3 = b"BT /FUsed 12 Tf 20 100 Td (Page3) Tj ET".to_vec();

    // A 1x1 gray pixel — ImA and ImB share these exact bytes.
    let img_shared = [0xFFu8];
    // A different image — never referenced by any kept page.
    let img_unused = [0x00u8, 0x00u8];

    let img_dict = "/Type /XObject /Subtype /Image /Width 1 /Height 1 \
                    /ColorSpace /DeviceGray /BitsPerComponent 8";
    let img_unused_dict = "/Type /XObject /Subtype /Image /Width 2 /Height 1 \
                           /ColorSpace /DeviceGray /BitsPerComponent 8";

    let objects: Vec<(usize, Vec<u8>)> = vec![
        (1, b"<< /Type /Catalog /Pages 2 0 R >>".to_vec()),
        (
            2,
            b"<< /Type /Pages /Kids [3 0 R 5 0 R 7 0 R] /Count 3 \
              /MediaBox [0 0 200 200] /Resources 9 0 R >>"
                .to_vec(),
        ),
        (3, b"<< /Type /Page /Parent 2 0 R /Contents 4 0 R >>".to_vec()),
        (4, stream_obj("", &content1)),
        (5, b"<< /Type /Page /Parent 2 0 R /Contents 6 0 R >>".to_vec()),
        (6, stream_obj("", &content2)),
        (7, b"<< /Type /Page /Parent 2 0 R /Contents 8 0 R >>".to_vec()),
        (8, stream_obj("", &content3)),
        (
            9,
            b"<< /Font << /FUsed 10 0 R /FUnused 11 0 R >> \
              /XObject << /ImA 12 0 R /ImB 13 0 R /ImUnused 14 0 R >> >>"
                .to_vec(),
        ),
        (10, b"<< /Type /Font /Subtype /Type1 /BaseFont /Helvetica >>".to_vec()),
        (11, b"<< /Type /Font /Subtype /Type1 /BaseFont /Courier >>".to_vec()),
        (12, stream_obj(img_dict, &img_shared)),
        (13, stream_obj(img_dict, &img_shared)),
        (14, stream_obj(img_unused_dict, &img_unused)),
    ];
    write_fixture(&objects)
}

/// Build a 2-page PDF whose first page carries a gov.br-style *visible* digital
/// signature: an `/AcroForm` `/FT /Sig` widget whose `/AP /N` form XObject draws
/// a seal image, with `/V` pointing at a `/Type /Sig` dictionary (`/ByteRange`,
/// `/Contents`). The signature is structurally faithful (what subsetting must
/// handle); its CMS is a placeholder — cryptographic validity is irrelevant to
/// how a rebuild treats it.
///
/// Object map:
///  1 Catalog(+/AcroForm 20), 2 Pages, 3 Page1(+/Annots 21), 4 content1,
///  5 Page2, 6 content2, 10 Font, 12 seal image,
///  20 AcroForm, 21 Sig widget, 22 /Type /Sig dict, 23 /AP form XObject.
fn build_signed_fixture() -> Vec<u8> {

    let content1 = b"BT /F1 12 Tf 20 250 Td (Signed Page) Tj ET".to_vec();
    let content2 = b"BT /F1 12 Tf 20 250 Td (Plain Page) Tj ET".to_vec();
    // The "seal": a red pixel standing in for the gov.br stamp image.
    let seal = [0xFFu8, 0x00, 0x00];
    let ap_stream = b"q 100 0 0 60 0 0 cm /Seal Do Q".to_vec();
    // Placeholder CMS contents for the signature dict (not a real signature).
    let sig_contents = "<0000000000000000>";

    let objects: Vec<(usize, Vec<u8>)> = vec![
        (1, b"<< /Type /Catalog /Pages 2 0 R /AcroForm 20 0 R >>".to_vec()),
        (
            2,
            b"<< /Type /Pages /Kids [3 0 R 5 0 R] /Count 2 /MediaBox [0 0 300 300] >>".to_vec(),
        ),
        (
            3,
            b"<< /Type /Page /Parent 2 0 R /Contents 4 0 R \
              /Resources << /Font << /F1 10 0 R >> >> /Annots [21 0 R] >>"
                .to_vec(),
        ),
        (4, stream_obj("", &content1)),
        (
            5,
            b"<< /Type /Page /Parent 2 0 R /Contents 6 0 R \
              /Resources << /Font << /F1 10 0 R >> >> >>"
                .to_vec(),
        ),
        (6, stream_obj("", &content2)),
        (10, b"<< /Type /Font /Subtype /Type1 /BaseFont /Helvetica >>".to_vec()),
        (
            12,
            stream_obj(
                "/Type /XObject /Subtype /Image /Width 1 /Height 1 \
                 /ColorSpace /DeviceRGB /BitsPerComponent 8",
                &seal,
            ),
        ),
        (20, b"<< /Fields [21 0 R] /SigFlags 3 >>".to_vec()),
        (
            21,
            b"<< /Type /Annot /Subtype /Widget /FT /Sig /Rect [20 20 120 80] \
              /P 3 0 R /T (Signature1) /V 22 0 R /AP << /N 23 0 R >> >>"
                .to_vec(),
        ),
        (
            22,
            format!(
                "<< /Type /Sig /Filter /Adobe.PPKLite /SubFilter /adbe.pkcs7.detached \
                 /ByteRange [0 100 200 100] /Contents {sig_contents} /M (D:20240101000000Z) >>"
            )
            .into_bytes(),
        ),
        (
            23,
            stream_obj(
                "/Type /XObject /Subtype /Form /BBox [0 0 100 60] \
                 /Resources << /XObject << /Seal 12 0 R >> >>",
                &ap_stream,
            ),
        ),
    ];
    write_fixture(&objects)
}

/// Build a 3-page PDF with an outline (bookmarks) and link annotations that
/// point at both kept and dropped pages, to exercise destination remapping +
/// pruning.
///
///  Outline: "Chapter 1"->page0, "Chapter 2"->page2(dropped),
///           "Chapter 3"->page1 with child "Section 3.1"->page2(dropped).
///  Links:   page0 -> page1 (kept), page1 -> page2 (dropped).
fn build_outline_fixture() -> Vec<u8> {
    let objects: Vec<(usize, Vec<u8>)> =
        vec![
        (1, b"<< /Type /Catalog /Pages 2 0 R /Outlines 30 0 R >>".to_vec()),
        (
            2,
            b"<< /Type /Pages /Kids [3 0 R 5 0 R 7 0 R] /Count 3 /MediaBox [0 0 200 200] \
              /Resources << /Font << /F1 10 0 R >> >> >>"
                .to_vec(),
        ),
        (3, b"<< /Type /Page /Parent 2 0 R /Contents 4 0 R /Annots [20 0 R] >>".to_vec()),
        (4, stream_obj("", b"BT /F1 12 Tf 20 100 Td (P0) Tj ET")),
        (5, b"<< /Type /Page /Parent 2 0 R /Contents 6 0 R /Annots [21 0 R] >>".to_vec()),
        (6, stream_obj("", b"BT /F1 12 Tf 20 100 Td (P1) Tj ET")),
        (7, b"<< /Type /Page /Parent 2 0 R /Contents 8 0 R >>".to_vec()),
        (8, stream_obj("", b"BT /F1 12 Tf 20 100 Td (P2) Tj ET")),
        (10, b"<< /Type /Font /Subtype /Type1 /BaseFont /Helvetica >>".to_vec()),
        (20, b"<< /Type /Annot /Subtype /Link /Rect [10 10 50 50] /Dest [5 0 R /Fit] >>".to_vec()),
        (21, b"<< /Type /Annot /Subtype /Link /Rect [10 10 50 50] /Dest [7 0 R /Fit] >>".to_vec()),
        (30, b"<< /Type /Outlines /First 31 0 R /Last 33 0 R /Count 3 >>".to_vec()),
        (
            31,
            b"<< /Title (Chapter 1) /Parent 30 0 R /Dest [3 0 R /Fit] /Next 32 0 R >>".to_vec(),
        ),
        (
            32,
            b"<< /Title (Chapter 2) /Parent 30 0 R /Prev 31 0 R /Next 33 0 R /Dest [7 0 R /Fit] >>"
                .to_vec(),
        ),
        (
            33,
            b"<< /Title (Chapter 3) /Parent 30 0 R /Prev 32 0 R /Dest [5 0 R /Fit] \
              /First 34 0 R /Last 34 0 R /Count 1 >>"
                .to_vec(),
        ),
        (34, b"<< /Title (Section 3.1) /Parent 33 0 R /Dest [7 0 R /Fit] >>".to_vec()),
    ];
    write_fixture(&objects)
}

/// Build a 1-page PDF whose page uses a Form XObject; the form's OWN
/// /Resources list a used image and an unused image.
fn build_form_fixture() -> Vec<u8> {
    let img = "/Type /XObject /Subtype /Image /Width 1 /Height 1 \
               /ColorSpace /DeviceGray /BitsPerComponent 8";
    let img2 = "/Type /XObject /Subtype /Image /Width 2 /Height 1 \
                /ColorSpace /DeviceGray /BitsPerComponent 8";
    let objects: Vec<(usize, Vec<u8>)> = vec![
        (1, b"<< /Type /Catalog /Pages 2 0 R >>".to_vec()),
        (
            2,
            b"<< /Type /Pages /Kids [3 0 R] /Count 1 /MediaBox [0 0 200 200] \
              /Resources << /XObject << /Fm 20 0 R >> >> >>"
                .to_vec(),
        ),
        (3, b"<< /Type /Page /Parent 2 0 R /Contents 4 0 R >>".to_vec()),
        (4, stream_obj("", b"q 100 0 0 100 0 0 cm /Fm Do Q")),
        (
            20,
            stream_obj(
                "/Type /XObject /Subtype /Form /BBox [0 0 100 100] \
                 /Resources << /XObject << /ImUsed 21 0 R /ImUnused 22 0 R >> >>",
                b"q 50 0 0 50 0 0 cm /ImUsed Do Q",
            ),
        ),
        (21, stream_obj(img, &[0xFFu8])),
        (22, stream_obj(img2, &[0x00u8, 0x00u8])),
    ];
    write_fixture(&objects)
}

/// Build a 2-page tagged PDF: a /Document structure element with one /P
/// (paragraph) per page, marked content (MCID 0) on each page, a ParentTree,
/// and per-page /StructParents.
fn build_tagged_fixture() -> Vec<u8> {
    let c0 = b"/P <</MCID 0>> BDC BT /F1 12 Tf 20 100 Td (Page0) Tj ET EMC".to_vec();
    let c1 = b"/P <</MCID 0>> BDC BT /F1 12 Tf 20 100 Td (Page1) Tj ET EMC".to_vec();
    let objects: Vec<(usize, Vec<u8>)> = vec![
        (
            1,
            b"<< /Type /Catalog /Pages 2 0 R /StructTreeRoot 30 0 R /MarkInfo << /Marked true >> >>"
                .to_vec(),
        ),
        (
            2,
            b"<< /Type /Pages /Kids [3 0 R 5 0 R] /Count 2 /MediaBox [0 0 200 200] \
              /Resources << /Font << /F1 10 0 R >> >> >>"
                .to_vec(),
        ),
        (3, b"<< /Type /Page /Parent 2 0 R /Contents 4 0 R /StructParents 0 >>".to_vec()),
        (4, stream_obj("", &c0)),
        (5, b"<< /Type /Page /Parent 2 0 R /Contents 6 0 R /StructParents 1 >>".to_vec()),
        (6, stream_obj("", &c1)),
        (10, b"<< /Type /Font /Subtype /Type1 /BaseFont /Helvetica >>".to_vec()),
        (
            30,
            b"<< /Type /StructTreeRoot /K 31 0 R /ParentTree 40 0 R /ParentTreeNextKey 2 \
              /RoleMap << >> >>"
                .to_vec(),
        ),
        (31, b"<< /Type /StructElem /S /Document /P 30 0 R /K [32 0 R 33 0 R] >>".to_vec()),
        (32, b"<< /Type /StructElem /S /P /P 31 0 R /Pg 3 0 R /K 0 >>".to_vec()),
        (33, b"<< /Type /StructElem /S /P /P 31 0 R /Pg 5 0 R /K 0 >>".to_vec()),
        (40, b"<< /Nums [0 [32 0 R] 1 [33 0 R]] >>".to_vec()),
    ];
    write_fixture(&objects)
}

/// Build a 2-page PDF with an interactive text field on each page, an optional
/// content layer used by page 0, and catalog metadata (/Lang, /Metadata,
/// /ViewerPreferences). Page 0's field is "name1"; page 1's is "name2".
fn build_form_doc_fixture() -> Vec<u8> {
    let xmp = b"<?xpacket?><x:xmpmeta xmlns:x='adobe:ns:meta/'></x:xmpmeta><?xpacket end='r'?>";
    let objects: Vec<(usize, Vec<u8>)> = vec![
        (
            1,
            b"<< /Type /Catalog /Pages 2 0 R /AcroForm 20 0 R /OCProperties 30 0 R \
              /Lang (en-US) /Metadata 35 0 R /ViewerPreferences << /HideToolbar true >> >>"
                .to_vec(),
        ),
        (
            2,
            b"<< /Type /Pages /Kids [3 0 R 5 0 R] /Count 2 /MediaBox [0 0 300 300] >>".to_vec(),
        ),
        (
            3,
            b"<< /Type /Page /Parent 2 0 R /Contents 4 0 R \
              /Resources << /Font << /F1 10 0 R >> /Properties << /MC0 31 0 R >> >> \
              /Annots [21 0 R] >>"
                .to_vec(),
        ),
        (4, stream_obj("", b"/OC /MC0 BDC BT /F1 12 Tf 20 250 Td (Page0) Tj ET EMC")),
        (
            5,
            b"<< /Type /Page /Parent 2 0 R /Contents 6 0 R \
              /Resources << /Font << /F1 10 0 R >> >> /Annots [22 0 R] >>"
                .to_vec(),
        ),
        (6, stream_obj("", b"BT /F1 12 Tf 20 250 Td (Page1) Tj ET")),
        (10, b"<< /Type /Font /Subtype /Type1 /BaseFont /Helvetica >>".to_vec()),
        (
            20,
            b"<< /Fields [21 0 R 22 0 R] /DA (/Helv 0 Tf 0 g) \
              /DR << /Font << /Helv 10 0 R >> >> /NeedAppearances true >>"
                .to_vec(),
        ),
        (
            21,
            b"<< /Type /Annot /Subtype /Widget /FT /Tx /T (name1) /V (Alice) \
              /Rect [20 20 120 50] /P 3 0 R /AP << /N 23 0 R >> >>"
                .to_vec(),
        ),
        (
            22,
            b"<< /Type /Annot /Subtype /Widget /FT /Tx /T (name2) /V (Bob) \
              /Rect [20 20 120 50] /P 5 0 R /AP << /N 24 0 R >> >>"
                .to_vec(),
        ),
        (23, stream_obj("/Type /XObject /Subtype /Form /BBox [0 0 100 30]", b"q Q")),
        (24, stream_obj("/Type /XObject /Subtype /Form /BBox [0 0 100 30]", b"q Q")),
        (30, b"<< /OCGs [31 0 R] /D << /Order [31 0 R] /ON [31 0 R] >> >>".to_vec()),
        (31, b"<< /Type /OCG /Name (Layer1) >>".to_vec()),
        (35, stream_obj("/Type /Metadata /Subtype /XML", xmp)),
    ];
    write_fixture(&objects)
}

/// Distinct image-XObject object ids and the set of /BaseFont names that the given pages reference
/// through their (possibly inherited) /Resources.
fn analyze(bytes: &[u8], pages: &[usize]) -> (HashSet<usize>, BTreeSet<String>) {
    let doc = read_pdf(bytes).expect("parse subset output");
    let mut image_ids = HashSet::new();
    let mut basefonts = BTreeSet::new();
    for &p in pages {
        let Some(res) = page_dict(&doc, p).get("Resources").and_then(|r| resolve(&doc, r)) else {
            continue;
        };
        let Some(res_dict) = res.as_dict() else {
            continue;
        };
        if let Some(xo) = res_dict.get("XObject").and_then(|x| resolve(&doc, x)) {
            if let Some(xo_dict) = xo.as_dict() {
                for v in values(xo_dict) {
                    if let Some(r) = v.as_reference() {
                        if let Some(obj) = doc.load_object(r) {
                            if obj.as_dict().is_some_and(|d| d.is_name("Subtype", "Image")) {
                                image_ids.insert(r.id);
                            }
                        }
                    }
                }
            }
        }
        if let Some(fo) = res_dict.get("Font").and_then(|f| resolve(&doc, f)) {
            if let Some(fo_dict) = fo.as_dict() {
                for v in values(fo_dict) {
                    if let Some(obj) = resolve(&doc, v) {
                        if let Some(name) =
                            obj.as_dict().and_then(|d| d.get("BaseFont")).and_then(|b| b.as_name())
                        {
                            basefonts.insert(name.to_string());
                        }
                    }
                }
            }
        }
    }
    (image_ids, basefonts)
}

#[test]
fn subset_preserves_text_drops_garbage_and_dedups() {
    let fixture = build_bloated_fixture();

    // Sanity: the fixture parses and has 3 pages.
    let probe = read_pdf(&fixture).expect("fixture parses");
    assert_eq!(probe.page_count(), 3);

    // Subset to pages 1 and 2 (0-indexed 0 and 1).
    let (subset, report) = subset_first(&probe, &[0, 1], SubsetOptions::default()).expect("subset");

    // --- Visual / semantic meaning preserved ---
    let out = read_pdf(&subset).expect("subset parses");
    assert_eq!(out.page_count(), 2, "kept exactly the two pages");
    assert!(extract_text(&out, 0).contains("Page1"), "page 1 text preserved");
    assert!(extract_text(&out, 1).contains("Page2"), "page 2 text preserved");

    // --- No garbage, no duplication ---
    let (images, fonts) = analyze(&subset, &[0, 1]);
    assert_eq!(
        images.len(),
        1,
        "ImA and ImB are byte-identical -> one shared image object; ImUnused dropped (got {images:?})"
    );
    assert_eq!(
        fonts,
        BTreeSet::from(["Helvetica".to_string()]),
        "only the used font survives; the unused Courier is dropped (got {fonts:?})"
    );
    assert!(report.objects_deduped >= 1, "the duplicate image was deduplicated");
    assert_eq!(report.dropped_signatures, 0);

    // --- Contrast: the pages as they stand in the source inherit the garbage ---
    let (source_images, source_fonts) = analyze(&fixture, &[0, 1]);
    assert!(
        source_images.len() > images.len() || source_fonts.len() > fonts.len(),
        "the source pages drag in unused inherited resources (images {} vs {}, fonts {:?} vs {:?})",
        source_images.len(),
        images.len(),
        source_fonts,
        fonts
    );
}

/// Does page 0's signature widget still carry its seal image through `/AP`?
fn seal_image_count(doc: &PdfDocument) -> usize {
    let mut count = 0;
    let Some(annots) = page_dict(doc, 0).get("Annots").and_then(|a| resolve(doc, a)) else {
        return 0;
    };
    let Some(arr) = annots.as_array() else {
        return 0;
    };
    for a in arr {
        let Some(annot) = resolve(doc, a) else {
            continue;
        };
        let Some(ap) = annot.as_dict().and_then(|d| d.get("AP")).and_then(|x| resolve(doc, x)) else {
            continue;
        };
        let Some(n) = ap.as_dict().and_then(|d| d.get("N")).and_then(|x| resolve(doc, x)) else {
            continue;
        };
        // Walk the appearance form's resources for image XObjects.
        let Some(res) = n.as_dict().and_then(|d| d.get("Resources")).and_then(|r| resolve(doc, r)) else {
            continue;
        };
        if let Some(xo) = res.as_dict().and_then(|d| d.get("XObject")).and_then(|x| resolve(doc, x)) {
            if let Some(xo_dict) = xo.as_dict() {
                for v in values(xo_dict) {
                    if let Some(obj) = resolve(doc, v) {
                        if obj.as_dict().is_some_and(|d| d.is_name("Subtype", "Image")) {
                            count += 1;
                        }
                    }
                }
            }
        }
    }
    count
}

#[test]
fn subset_preserves_signature_seal_but_drops_invalid_signature() {
    let fixture = build_signed_fixture();

    // Sanity: the fixture itself contains a /ByteRange signature dict.
    assert!(holds(&fixture, b"/ByteRange"), "fixture should contain a signature");

    let doc = read_pdf(&fixture).expect("parse fixture");
    let (subset, report) =
        subset_to_bytes(&[&doc], &[(0, 0)], SubsetOptions::default()).expect("subset signed page");

    let out = read_pdf(&subset).expect("subset parses");

    // Text + the bound seal image survive.
    assert!(extract_text(&out, 0).contains("Signed Page"), "page text preserved");
    assert_eq!(seal_image_count(&out), 1, "the seal image is preserved (and not duplicated)");

    // Nothing claims to be a valid signature any more.
    assert!(!holds(&subset, b"/ByteRange"), "no /ByteRange signature dict survives a rebuild");
    assert!(!holds(&subset, b"/Sig"), "no leftover signature dictionary");
    assert_eq!(report.dropped_signatures, 1, "one signature was dropped");
    assert!(!report.warnings.is_empty(), "a warning was recorded");
}

#[test]
fn subset_refuses_signed_page_when_policy_is_refuse() {
    let doc = read_pdf(&build_signed_fixture()).expect("parse fixture");
    let opts = SubsetOptions { on_signature: SignaturePolicy::Refuse, ..SubsetOptions::default() };
    let result = subset_first(&doc, &[0], opts);
    assert!(result.is_err(), "Refuse policy must reject subsetting a signed page");

    // The unsigned page (1) is fine under Refuse.
    let doc2 = read_pdf(&build_signed_fixture()).expect("parse fixture");
    let opts2 = SubsetOptions { on_signature: SignaturePolicy::Refuse, ..SubsetOptions::default() };
    let ok = subset_first(&doc2, &[1], opts2);
    assert!(ok.is_ok(), "an unsigned page can still be subset under Refuse");
}

/// Outline titles in /First.. /Next order, and the /Type of each /Dest target.
fn outline_titles_and_targets(doc: &PdfDocument) -> Vec<(String, String)> {
    let mut out = Vec::new();
    let Some(outlines) = catalog(doc).get("Outlines").and_then(|o| resolve(doc, o)) else {
        return out;
    };
    let mut cur = outlines.as_dict().and_then(|d| d.get("First")).and_then(|f| f.as_reference());
    while let Some(item_ref) = cur {
        let Some(item) = doc.load_object(item_ref) else {
            break;
        };
        let Some(d) = item.as_dict() else { break };
        let title = d
            .get("Title")
            .and_then(|t| t.as_string())
            .map(|b| String::from_utf8_lossy(b).into_owned())
            .unwrap_or_default();
        let target = d
            .get("Dest")
            .and_then(|de| de.as_array())
            .and_then(|a| a.first())
            .and_then(|f| f.as_reference())
            .and_then(|r| doc.load_object(r))
            .and_then(|o| o.as_dict())
            .and_then(|dd| dd.get("Type"))
            .and_then(|t| t.as_name())
            .map(String::from)
            .unwrap_or_default();
        out.push((title, target));
        cur = d.get("Next").and_then(|n| n.as_reference());
    }
    out
}

/// The first annotation of a page.
fn first_annot(doc: &PdfDocument, page: usize) -> Option<&Dict> {
    page_dict(doc, page)
        .get("Annots")
        .and_then(|a| resolve(doc, a))
        .and_then(|a| a.as_array())
        .and_then(|arr| arr.first())
        .and_then(|e| resolve(doc, e))
        .and_then(|annot| annot.as_dict())
}

#[test]
fn subset_remaps_links_and_prunes_outlines() {
    let fixture = build_outline_fixture();
    let doc = read_pdf(&fixture).expect("parse fixture");

    // Keep pages 0 and 1; drop page 2.
    let (subset, report) =
        subset_to_bytes(&[&doc], &[(0, 0), (0, 1)], SubsetOptions::default()).expect("subset");
    let out = read_pdf(&subset).expect("subset parses");

    // --- Outlines pruned to entries that still resolve to a kept page ---
    let titles = outline_titles_and_targets(&out);
    let kept: Vec<String> = titles.iter().map(|(t, _)| t.clone()).collect();
    assert_eq!(
        kept,
        vec!["Chapter 1".to_string(), "Chapter 3".to_string()],
        "Chapter 2 (-> dropped page) is pruned; Chapter 1 and 3 survive (got {kept:?})"
    );
    for (title, target) in &titles {
        assert_eq!(target, "Page", "outline '{title}' must point at a real kept page");
    }
    assert_eq!(report.outline_entries, 2);

    // --- Links: kept-page target preserved, dropped-page target severed ---
    let p0_link_has_dest = first_annot(&out, 0).is_some_and(|d| d.contains_key("Dest"));
    assert!(p0_link_has_dest, "page 0's link to a kept page keeps its /Dest");

    let p1_link_has_dest = first_annot(&out, 1).is_some_and(|d| d.contains_key("Dest"));
    assert!(!p1_link_has_dest, "page 1's link to a dropped page is severed");
    assert!(report.links_severed >= 1, "at least one link was severed");
}

/// Count image XObjects inside the page's form `/Fm`'s own /Resources.
fn form_internal_image_count(doc: &PdfDocument) -> usize {
    let res = page_dict(doc, 0).get("Resources").and_then(|r| resolve(doc, r)).unwrap();
    let xo = res.as_dict().and_then(|d| d.get("XObject")).and_then(|x| resolve(doc, x)).unwrap();
    let fm = xo.as_dict().and_then(|d| d.get("Fm")).and_then(|f| resolve(doc, f)).unwrap();
    let fres = fm.as_dict().and_then(|d| d.get("Resources")).and_then(|r| resolve(doc, r)).unwrap();
    let fxo = fres.as_dict().and_then(|d| d.get("XObject")).and_then(|x| resolve(doc, x));
    let Some(fxo) = fxo else { return 0 };
    fxo.as_dict()
        .map(|d| {
            values(d)
                .iter()
                .filter(|v| {
                    resolve(doc, v).and_then(|o| o.as_dict()).is_some_and(|dd| dd.is_name("Subtype", "Image"))
                })
                .count()
        })
        .unwrap_or(0)
}

#[test]
fn subset_trims_form_internal_resources() {
    let fixture = build_form_fixture();
    let doc = read_pdf(&fixture).expect("parse");

    // trim_forms ON (default): the form's unused image is dropped.
    let (trimmed, _) = subset_to_bytes(&[&doc], &[(0, 0)], SubsetOptions::default()).unwrap();
    let out = read_pdf(&trimmed).expect("parse trimmed");
    assert_eq!(form_internal_image_count(&out), 1, "form keeps only its used image");

    // trim_forms OFF: the form is copied wholesale, unused image retained.
    let opts = SubsetOptions { trim_forms: false, ..SubsetOptions::default() };
    let (whole, _) = subset_to_bytes(&[&doc], &[(0, 0)], opts).unwrap();
    let out2 = read_pdf(&whole).expect("parse whole");
    assert_eq!(form_internal_image_count(&out2), 2, "wholesale form keeps both images");
}

#[test]
fn subset_prunes_structure_tree_to_kept_pages() {
    let fixture = build_tagged_fixture();
    let doc = read_pdf(&fixture).expect("parse");

    // Keep page 0 only; the /P element for page 1 must be pruned.
    let (subset, report) =
        subset_to_bytes(&[&doc], &[(0, 0)], SubsetOptions::default()).expect("subset");
    let out = read_pdf(&subset).expect("subset parses");

    // Document + one surviving /P.
    assert_eq!(
        report.struct_elements, 2,
        "Document + the kept page's P survive (P for page 1 pruned)"
    );

    let cat_d = catalog(&out);
    assert!(cat_d.contains_key("MarkInfo"), "MarkInfo present");
    let st = cat_d.get("StructTreeRoot").and_then(|s| resolve(&out, s)).expect("StructTreeRoot");
    let st_d = st.as_dict().unwrap();
    assert_eq!(st_d.get("Type").and_then(|t| t.as_name()), Some("StructTreeRoot"));

    // Root /K -> Document element.
    let docel = st_d.get("K").and_then(|k| resolve(&out, k)).expect("doc elem");
    let docel_d = docel.as_dict().unwrap();
    assert_eq!(docel_d.get("S").and_then(|s| s.as_name()), Some("Document"));

    // Document has exactly one surviving child P, pointing at a real kept page.
    let children: Vec<Object> = match docel_d.get("K") {
        Some(Object::Array(a)) => a.iter().map(|o| o.clone()).collect(),
        Some(other) => vec![other.clone()],
        None => vec![],
    };
    assert_eq!(children.len(), 1, "only the kept page's paragraph remains");
    let p = resolve(&out, &children[0]).unwrap();
    let p_d = p.as_dict().unwrap();
    assert_eq!(p_d.get("S").and_then(|s| s.as_name()), Some("P"));
    let pg = p_d.get("Pg").and_then(|g| resolve(&out, g)).unwrap();
    assert_eq!(pg.as_dict().and_then(|d| d.get("Type")).and_then(|t| t.as_name()), Some("Page"));

    // ParentTree maps the kept page's StructParents key to the P element.
    let pt = st_d.get("ParentTree").and_then(|p| resolve(&out, p)).expect("ParentTree");
    let nums = pt.as_dict().and_then(|d| d.get("Nums")).and_then(|n| n.as_array()).expect("Nums");
    assert!(nums.len() >= 2, "at least one (key, array) pair");
    let arr = resolve(&out, &nums[1]).unwrap();
    let first = arr.as_array().and_then(|a| a.first()).and_then(|e| resolve(&out, e)).unwrap();
    assert_eq!(first.as_dict().and_then(|d| d.get("S")).and_then(|s| s.as_name()), Some("P"));

    // Text still extracts.
    assert!(extract_text(&out, 0).contains("Page0"));
}

#[test]
fn subset_preserves_acroform_layers_and_metadata() {
    let fixture = build_form_doc_fixture();
    let doc = read_pdf(&fixture).expect("parse");

    // Keep page 0 (field "name1" + the layer); drop page 1 (field "name2").
    let (subset, report) =
        subset_to_bytes(&[&doc], &[(0, 0)], SubsetOptions::default()).expect("subset");
    let out = read_pdf(&subset).expect("subset parses");
    let cat = catalog(&out);

    // --- AcroForm: only the kept page's field survives, still interactive ---
    let acro = cat.get("AcroForm").and_then(|a| resolve(&out, a)).expect("AcroForm kept");
    let fields = acro.as_dict().and_then(|d| d.get("Fields")).and_then(|f| f.as_array()).unwrap();
    assert_eq!(fields.len(), 1, "only the kept page's field survives (got {})", fields.len());
    assert_eq!(report.form_fields, 1);
    let field = resolve(&out, &fields[0]).unwrap();
    let fd = field.as_dict().unwrap();
    assert_eq!(fd.get("FT").and_then(|v| v.as_name()), Some("Tx"), "field type preserved");
    assert_eq!(
        fd.get("T").and_then(|v| v.as_string()),
        Some(&b"name1"[..]),
        "the kept field is name1 (not the dropped name2)"
    );
    assert_eq!(
        fd.get("V").and_then(|v| v.as_string()),
        Some(&b"Alice"[..]),
        "field value preserved (interactive form intact)"
    );

    // --- Optional content layer carried ---
    let oc = cat.get("OCProperties").and_then(|o| resolve(&out, o)).expect("OCProperties kept");
    assert!(oc.as_dict().and_then(|d| d.get("OCGs")).is_some(), "OCGs carried");

    // --- Catalog metadata carried ---
    assert_eq!(
        cat.get("Lang").and_then(|v| resolve(&out, v)).and_then(|v| v.as_string()),
        Some(&b"en-US"[..]),
        "/Lang carried"
    );
    assert!(cat.get("Metadata").and_then(|m| resolve(&out, m)).is_some(), "/Metadata carried");
    assert!(cat.contains_key("ViewerPreferences"), "/ViewerPreferences carried");
}

#[test]
fn subset_keep_acroform_false_drops_the_form() {
    let fixture = build_form_doc_fixture();
    let doc = read_pdf(&fixture).expect("parse");
    let opts = SubsetOptions { keep_acroform: false, ..SubsetOptions::default() };
    let (subset, _) = subset_to_bytes(&[&doc], &[(0, 0)], opts).expect("subset");
    let out = read_pdf(&subset).expect("parses");
    assert!(!catalog(&out).contains_key("AcroForm"), "no AcroForm when keep_acroform=false");
    // The widget's appearance is still on the page (visual preserved).
    assert!(page_dict(&out, 0).get("Annots").is_some(), "widget annotation still present visually");
}

fn message(e: &Error) -> String {
    match e {
        Error::InvalidPdf(m) => m.clone(),
        other => format!("{other:?}"),
    }
}

#[test]
fn an_empty_selection_is_an_error() {
    let doc = read_pdf(&build_bloated_fixture()).unwrap();
    let e = subset_to_bytes(&[&doc], &[], SubsetOptions::default()).unwrap_err();
    assert_eq!(message(&e), "no pages selected");
}

#[test]
fn a_source_that_is_not_there_is_an_error() {
    let doc = read_pdf(&build_bloated_fixture()).unwrap();
    let e = subset_to_bytes(&[&doc], &[(0, 0), (12, 0), (7, 0)], SubsetOptions::default()).unwrap_err();
    assert_eq!(message(&e), "source index 12 out of range");
}

#[test]
fn a_page_that_is_not_there_is_an_error() {
    let doc = read_pdf(&build_bloated_fixture()).unwrap();
    let e = subset_to_bytes(&[&doc], &[(0, 0), (0, 3)], SubsetOptions::default()).unwrap_err();
    assert!(matches!(e, Error::PageNotFound(3)));
}

#[test]
fn a_page_that_is_no_dictionary_is_an_error() {
    let mut doc = read_pdf(&build_bloated_fixture()).unwrap();
    doc.add_page(SourcePage {
        object: Object::Integer(5),
        content: Content::Undecodable,
        resources: Object::Null,
        inks: Vec::new(),
    });
    let e = subset_to_bytes(&[&doc], &[(0, 3)], SubsetOptions::default()).unwrap_err();
    assert_eq!(message(&e), "page 3 is not a dictionary");
}

#[test]
fn a_refused_signature_names_the_page() {
    let doc = read_pdf(&build_signed_fixture()).unwrap();
    let opts = SubsetOptions { on_signature: SignaturePolicy::Refuse, ..SubsetOptions::default() };
    let e = subset_to_bytes(&[&doc], &[(0, 1), (0, 0)], opts).unwrap_err();
    assert_eq!(
        message(&e),
        "page 0 carries a digital signature; subsetting would invalidate it (SignaturePolicy::Refuse)"
    );
}

#[test]
fn a_dropped_signature_leaves_a_warning_and_a_plain_annotation() {
    let doc = read_pdf(&build_signed_fixture()).unwrap();
    let (bytes, report) = subset_to_bytes(&[&doc], &[(0, 0)], SubsetOptions::default()).unwrap();
    assert_eq!(
        report.warnings,
        vec!["page 0: digital signature dropped (rebuild invalidates it); visual appearance preserved"
            .to_string()]
    );
    let out = read_pdf(&bytes).unwrap();
    let annot = first_annot(&out, 0).unwrap();
    for key in ["V", "FT", "T", "TU", "Ff", "DV", "Lock", "SV", "DA", "DR"] {
        assert!(!annot.contains_key(key), "{key} is gone");
    }
    assert!(annot.contains_key("AP"));
    assert!(annot.is_name("Subtype", "Widget"));
    assert!(!catalog(&out).contains_key("AcroForm"));
}

/// A file of one page with nothing on it but a line of text.
fn build_small_fixture() -> Vec<u8> {
    write_fixture(&[
        (1, b"<< /Type /Catalog /Pages 2 0 R >>".to_vec()),
        (2, b"<< /Type /Pages /Kids [3 0 R] /Count 1 >>".to_vec()),
        (3, b"<< /Type /Page /Parent 2 0 R /MediaBox [0 0 9 9] /Contents 4 0 R >>".to_vec()),
        (4, stream_obj("", b"q Q")),
    ])
}

#[test]
fn the_file_is_written_to_the_byte() {
    let doc = read_pdf(&build_small_fixture()).unwrap();
    let (bytes, report) = subset_to_bytes(&[&doc], &[(0, 0)], SubsetOptions::default()).unwrap();
    let mut wanted = b"%PDF-1.7\n%\xE2\xE3\xCF\xD3\n".to_vec();
    let objects = [
        "1 0 obj\n<< /Contents 2 0 R /MediaBox [ 0 0 9 9 ] /Parent 3 0 R /Type /Page >>\nendobj\n",
        "2 0 obj\n<< /Length 3 >>\nstream\nq Q\nendstream\nendobj\n",
        "3 0 obj\n<< /Count 1 /Kids [ 1 0 R ] /Type /Pages >>\nendobj\n",
        "4 0 obj\n<< /Pages 3 0 R /Type /Catalog >>\nendobj\n",
    ];
    let mut offsets = Vec::new();
    for o in objects {
        offsets.push(wanted.len());
        wanted.extend_from_slice(o.as_bytes());
    }
    let start = wanted.len();
    wanted.extend_from_slice(b"xref\n0 5\n0000000000 65535 f \r\n");
    for at in offsets {
        wanted.extend_from_slice(format!("{at:010} 00000 n \r\n").as_bytes());
    }
    wanted.extend_from_slice(
        format!("trailer\n<< /Size 5 /Root 4 0 R >>\nstartxref\n{start}\n%%EOF\n").as_bytes(),
    );
    assert_eq!(String::from_utf8_lossy(&bytes), String::from_utf8_lossy(&wanted));
    assert_eq!(bytes, wanted);
    assert_eq!(report.objects_written, 4);
    assert_eq!(report.objects_deduped, 0);
}

#[test]
fn the_offsets_point_at_the_objects_and_the_numbers_have_no_gaps() {
    for fixture in [build_bloated_fixture(), build_signed_fixture(), build_tagged_fixture(), build_form_doc_fixture()] {
        let doc = read_pdf(&fixture).unwrap();
        let (bytes, report) = subset_to_bytes(&[&doc], &[(0, 0)], SubsetOptions::default()).unwrap();
        let n = report.objects_written;
        let tail = String::from_utf8_lossy(&bytes[bytes.len() - 40..]).into_owned();
        let start: usize = tail.split("startxref\n").nth(1).unwrap().split('\n').next().unwrap().parse().unwrap();
        let heading = format!("xref\n0 {}\n", n + 1);
        assert!(bytes[start..].starts_with(heading.as_bytes()));
        for id in 1..=n {
            let at = start + heading.len() + 21 * id;
            let entry = std::str::from_utf8(&bytes[at..at + 21]).unwrap();
            assert!(entry.ends_with(" 00000 n \r\n"));
            let offset: usize = entry[..10].parse().unwrap();
            assert!(bytes[offset..].starts_with(format!("{id} 0 obj\n").as_bytes()));
        }
        let out = read_pdf(&bytes).unwrap();
        assert!(load(&out, n).is_some() && load(&out, n + 1).is_none());
    }
}

fn collect_refs(o: &Object, out: &mut Vec<usize>) {
    match o {
        Object::Reference(r) => out.push(r.id),
        Object::Array(a) => a.iter().for_each(|x| collect_refs(x, out)),
        Object::Dictionary(d) => values(d).iter().for_each(|x| collect_refs(x, out)),
        Object::Stream { dict, .. } => values(dict).iter().for_each(|x| collect_refs(x, out)),
        _ => {},
    }
}

#[test]
fn every_object_can_be_reached_from_the_trailer() {
    for fixture in [build_bloated_fixture(), build_signed_fixture(), build_outline_fixture(), build_form_doc_fixture()] {
        let doc = read_pdf(&fixture).unwrap();
        let (bytes, report) = subset_to_bytes(&[&doc], &[(0, 0)], SubsetOptions::default()).unwrap();
        let out = read_pdf(&bytes).unwrap();
        let mut seen = HashSet::new();
        let mut todo = Vec::new();
        collect_refs(out.trailer(), &mut todo);
        while let Some(id) = todo.pop() {
            if seen.insert(id) {
                collect_refs(load(&out, id).expect("no reference leads nowhere"), &mut todo);
            }
        }
        assert_eq!(seen.len(), report.objects_written);
    }
}

#[test]
fn without_collapsing_equal_objects_stay_apart() {
    let doc = read_pdf(&build_bloated_fixture()).unwrap();
    let opts = SubsetOptions { dedup: false, ..SubsetOptions::default() };
    let (bytes, report) = subset_to_bytes(&[&doc], &[(0, 0), (0, 1)], opts).unwrap();
    assert_eq!(report.objects_deduped, 0);
    let (images, _) = analyze(&bytes, &[0, 1]);
    assert_eq!(images.len(), 2);
}

#[test]
fn collapsing_goes_on_until_nothing_is_equal() {
    // Two images that refer to two masks; the images are equal once the masks are one.
    let fixture = write_fixture(&[
        (1, b"<< /Type /Catalog /Pages 2 0 R >>".to_vec()),
        (2, b"<< /Type /Pages /Kids [3 0 R] /Count 1 >>".to_vec()),
        (
            3,
            b"<< /Type /Page /Parent 2 0 R /Contents 4 0 R /Resources << /XObject << /A 5 0 R /B 6 0 R >> >> >>"
                .to_vec(),
        ),
        (4, stream_obj("", b"/A Do /B Do")),
        (5, stream_obj("/Subtype /Image /SMask 7 0 R", b"x")),
        (6, stream_obj("/Subtype /Image /SMask 8 0 R", b"x")),
        (7, stream_obj("/Subtype /Image", b"m")),
        (8, stream_obj("/Subtype /Image", b"m")),
    ]);
    let doc = read_pdf(&fixture).unwrap();
    let (bytes, report) = subset_to_bytes(&[&doc], &[(0, 0)], SubsetOptions::default()).unwrap();
    assert_eq!(report.objects_deduped, 2);
    let out = read_pdf(&bytes).unwrap();
    let x = page_dict(&out, 0).get("Resources").unwrap().as_dict().unwrap().get("XObject").unwrap();
    let x = x.as_dict().unwrap();
    assert_eq!(x.get_ref("A").unwrap().id, x.get_ref("B").unwrap().id);
}

#[test]
fn a_rebuild_takes_pages_of_several_sources_in_order() {
    let mut rb = PdfRebuilder::new();
    let a = rb.add_source(read_pdf(&build_bloated_fixture())).unwrap();
    let b = rb.add_source(read_pdf(&build_outline_fixture())).unwrap();
    assert_eq!((a, b), (0, 1));
    rb.add_pages(a, &[2, 0]).add_page(b, 1);
    let (bytes, _) = rb.build().unwrap();
    let out = read_pdf(&bytes).unwrap();
    assert_eq!(out.page_count(), 3);
    assert_eq!(extract_text(&out, 0), "Page3");
    assert_eq!(extract_text(&out, 1), "Page1");
    assert_eq!(extract_text(&out, 2), "P1");
    // The same font comes from both sources and is written once.
    let (_, fonts) = analyze(&bytes, &[0, 1, 2]);
    assert_eq!(fonts.len(), 1);
    assert_eq!(bytes.windows(9).filter(|w| *w == b"Helvetica").count(), 1);
}

#[test]
fn a_source_that_cannot_be_read_is_not_added() {
    let mut rb = PdfRebuilder::default();
    assert!(matches!(rb.add_source(read_pdf(b"no file")), Err(Error::InvalidPdf(_))));
    assert_eq!(rb.add_source(read_pdf(&build_small_fixture())).unwrap(), 0);
    rb.add_page(0, 0);
    assert!(rb.build().is_ok());
}

#[test]
fn options_are_handed_on() {
    let opts = SubsetOptions { on_signature: SignaturePolicy::Refuse, ..SubsetOptions::default() };
    let mut rb = PdfRebuilder::new().with_options(opts);
    rb.add_source(read_pdf(&build_signed_fixture())).unwrap();
    rb.add_page(0, 0);
    assert!(rb.build().is_err());
}

#[test]
fn one_document_is_subset_in_one_call() {
    let bytes = subset_pdf_bytes(read_pdf(&build_bloated_fixture()), &[2], SubsetOptions::default()).unwrap();
    let out = read_pdf(&bytes).unwrap();
    assert_eq!(out.page_count(), 1);
    assert_eq!(extract_text(&out, 0), "Page3");
    let e = subset_pdf_bytes(read_pdf(b"no file"), &[0], SubsetOptions::default()).unwrap_err();
    assert_eq!(message(&e), "no object number");
}

#[test]
fn a_page_can_be_chosen_twice() {
    let doc = read_pdf(&build_outline_fixture()).unwrap();
    let (bytes, _) =
        subset_to_bytes(&[&doc], &[(0, 0), (0, 1), (0, 1)], SubsetOptions::default()).unwrap();
    let out = read_pdf(&bytes).unwrap();
    assert_eq!(out.page_count(), 3);
    // The link on page 0 leads to the last of the two.
    let dest = first_annot(&out, 0).unwrap().get("Dest").unwrap().as_array().unwrap();
    assert_eq!(dest[0].as_reference().unwrap().id, 3);
}

/// Two pages; the links on the first are of all kinds.
fn build_links_fixture(annots: &[&str]) -> Vec<u8> {
    let mut list = String::new();
    let mut objects = vec![
        (
            1,
            b"<< /Type /Catalog /Pages 2 0 R /Dests << /Here [3 0 R /Fit] /There << /D [5 0 R /Fit] >> >> \
              /Names << /Dests << /Kids [ << /Names [(a) [5 0 R /Fit]] >> << /Names [(b) [3 0 R /XYZ 1 2 3]] >> ] >> >> >>"
                .to_vec(),
        ),
        (2, b"<< /Type /Pages /Kids [3 0 R 5 0 R] /Count 2 >>".to_vec()),
        (5, b"<< /Type /Page /Parent 2 0 R >>".to_vec()),
    ];
    for (i, annot) in annots.iter().enumerate() {
        let id = 20 + i;
        list.push_str(&format!("{id} 0 R "));
        objects.push((id, format!("<< /Subtype /Link {annot} >>").into_bytes()));
    }
    objects.push((3, format!("<< /Type /Page /Parent 2 0 R /Annots [{list}] >>").into_bytes()));
    write_fixture(&objects)
}

#[test]
fn links_follow_names_and_actions() {
    let doc = read_pdf(&build_links_fixture(&[
        "/Dest /Here",
        "/Dest /There",
        "/Dest (b)",
        "/Dest (a)",
        "/A << /S /GoTo /D (b) /Next << /S /JavaScript >> >>",
        "/A << /S /GoTo /D (a) >>",
        "/A << /S /URI /URI (http://x) /Next << /S /Launch >> >>",
        "/A << /S /Launch /F (x) >>",
        "/Rect [0 0 1 1]",
    ]))
    .unwrap();
    let (bytes, report) = subset_to_bytes(&[&doc], &[(0, 0)], SubsetOptions::default()).unwrap();
    let out = read_pdf(&bytes).unwrap();
    let annots = page_dict(&out, 0).get("Annots").unwrap().as_array().unwrap();
    let annot = |i: usize| resolve(&out, &annots[i]).unwrap().as_dict().unwrap();
    assert_eq!(annots.len(), 9);
    let page = |o: &Object| o.as_array().unwrap()[0].as_reference().unwrap().id;
    assert_eq!(page(annot(0).get("Dest").unwrap()), 1);
    assert!(!annot(1).contains_key("Dest"));
    assert_eq!(page(annot(2).get("Dest").unwrap()), 1);
    assert_eq!(annot(2).get("Dest").unwrap().as_array().unwrap().len(), 5);
    assert!(!annot(3).contains_key("Dest"));
    let jump = annot(4).get("A").unwrap().as_dict().unwrap();
    assert_eq!(page(jump.get("D").unwrap()), 1);
    assert!(!jump.contains_key("Next"));
    assert!(!annot(5).contains_key("A"));
    let uri = annot(6).get("A").unwrap().as_dict().unwrap();
    assert!(uri.is_name("S", "URI") && !uri.contains_key("Next"));
    assert!(!annot(7).contains_key("A"));
    assert_eq!(annot(8).get_ref("P").unwrap().id, 1);
    assert_eq!(report.links_severed, 4);
}

#[test]
fn without_links_none_is_kept() {
    let doc = read_pdf(&build_links_fixture(&["/Dest /Here", "/A << /S /URI /URI (x) >>"])).unwrap();
    let opts = SubsetOptions { keep_links: false, ..SubsetOptions::default() };
    let (bytes, report) = subset_to_bytes(&[&doc], &[(0, 0)], opts).unwrap();
    assert_eq!(report.links_severed, 2);
    assert!(!holds(&bytes, b"/Dest") && !holds(&bytes, b"/URI"));
}

#[test]
fn a_reference_to_a_dropped_page_becomes_null() {
    let fixture = write_fixture(&[
        (1, b"<< /Type /Catalog /Pages 2 0 R >>".to_vec()),
        (2, b"<< /Type /Pages /Kids [3 0 R 5 0 R] /Count 2 >>".to_vec()),
        (3, b"<< /Type /Page /Parent 2 0 R /Group << /Other 5 0 R /S /Transparency >> >>".to_vec()),
        (5, b"<< /Type /Page /Parent 2 0 R >>".to_vec()),
    ]);
    let doc = read_pdf(&fixture).unwrap();
    let (bytes, report) = subset_to_bytes(&[&doc], &[(0, 0)], SubsetOptions::default()).unwrap();
    let out = read_pdf(&bytes).unwrap();
    let group = page_dict(&out, 0).get("Group").unwrap().as_dict().unwrap();
    assert!(matches!(group.get("Other"), Some(Object::Null)));
    assert_eq!(report.objects_written, 3);
}

#[test]
fn an_outline_that_runs_in_a_circle_ends() {
    let fixture = write_fixture(&[
        (1, b"<< /Type /Catalog /Pages 2 0 R /Outlines 10 0 R >>".to_vec()),
        (2, b"<< /Type /Pages /Kids [3 0 R] /Count 1 >>".to_vec()),
        (3, b"<< /Type /Page /Parent 2 0 R >>".to_vec()),
        (10, b"<< /First 11 0 R >>".to_vec()),
        (11, b"<< /Title (a) /Dest [3 0 R] /Next 12 0 R >>".to_vec()),
        (12, b"<< /Title (b) /Dest [3 0 R] /Next 11 0 R >>".to_vec()),
    ]);
    let doc = read_pdf(&fixture).unwrap();
    let (bytes, report) = subset_to_bytes(&[&doc], &[(0, 0)], SubsetOptions::default()).unwrap();
    assert_eq!(report.outline_entries, 2);
    let titles: Vec<String> =
        outline_titles_and_targets(&read_pdf(&bytes).unwrap()).into_iter().map(|(t, _)| t).collect();
    assert_eq!(titles, vec!["a".to_string(), "b".to_string()]);
}

#[test]
fn an_entry_stays_for_the_sake_of_what_is_below_it() {
    let fixture = write_fixture(&[
        (1, b"<< /Type /Catalog /Pages 2 0 R /Outlines 10 0 R >>".to_vec()),
        (2, b"<< /Type /Pages /Kids [3 0 R 5 0 R] /Count 2 >>".to_vec()),
        (3, b"<< /Type /Page /Parent 2 0 R >>".to_vec()),
        (5, b"<< /Type /Page /Parent 2 0 R >>".to_vec()),
        (10, b"<< /First 11 0 R >>".to_vec()),
        (11, b"<< /Title (part) /Dest [5 0 R] /First 13 0 R /Next 12 0 R /C [1 0 0] /F 2 >>".to_vec()),
        (12, b"<< /Title (gone) /Dest [5 0 R] /Prev 11 0 R >>".to_vec()),
        (13, b"<< /Title (section) /A << /S /GoTo /D [3 0 R] >> /Parent 11 0 R >>".to_vec()),
    ]);
    let doc = read_pdf(&fixture).unwrap();
    let (bytes, report) = subset_to_bytes(&[&doc], &[(0, 0)], SubsetOptions::default()).unwrap();
    assert_eq!(report.outline_entries, 2);
    let out = read_pdf(&bytes).unwrap();
    let root = catalog(&out).get("Outlines").and_then(|o| resolve(&out, o)).unwrap().as_dict().unwrap();
    assert!(matches!(root.get("Count"), Some(Object::Integer(1))));
    let part = root.get("First").and_then(|o| resolve(&out, o)).unwrap().as_dict().unwrap();
    assert_eq!(part.get("Title").unwrap().as_string(), Some(&b"part"[..]));
    assert!(!part.contains_key("Dest") && !part.contains_key("Next"));
    assert!(part.contains_key("C") && part.contains_key("F"));
    assert_eq!(part.get_ref("First").unwrap().id, part.get_ref("Last").unwrap().id);
    let section = part.get("First").and_then(|o| resolve(&out, o)).unwrap().as_dict().unwrap();
    assert_eq!(section.get("Title").unwrap().as_string(), Some(&b"section"[..]));
    assert_eq!(section.get("Parent").and_then(|o| resolve(&out, o)).unwrap().as_dict().unwrap().len(), part.len());
}

#[test]
fn without_outlines_none_is_kept() {
    let doc = read_pdf(&build_outline_fixture()).unwrap();
    let opts = SubsetOptions { keep_outlines: false, ..SubsetOptions::default() };
    let (bytes, report) = subset_to_bytes(&[&doc], &[(0, 0)], opts).unwrap();
    assert_eq!(report.outline_entries, 0);
    assert!(!holds(&bytes, b"/Outlines"));
}

#[test]
fn a_field_keeps_its_ancestors_and_the_kids_that_are_left() {
    let fixture = write_fixture(&[
        (1, b"<< /Type /Catalog /Pages 2 0 R /AcroForm << /Fields [10 0 R] /Q 1 >> >>".to_vec()),
        (2, b"<< /Type /Pages /Kids [3 0 R 5 0 R] /Count 2 >>".to_vec()),
        (3, b"<< /Type /Page /Parent 2 0 R /Annots [12 0 R 13 0 R] >>".to_vec()),
        (5, b"<< /Type /Page /Parent 2 0 R /Annots [14 0 R] >>".to_vec()),
        (10, b"<< /T (form) /Kids [11 0 R] >>".to_vec()),
        (11, b"<< /T (choice) /FT /Btn /V /On /Parent 10 0 R /Kids [12 0 R 13 0 R 14 0 R] >>".to_vec()),
        (12, b"<< /Subtype /Widget /Parent 11 0 R /AS /On >>".to_vec()),
        (13, b"<< /Subtype /Widget /Parent 11 0 R /AS /Off >>".to_vec()),
        (14, b"<< /Subtype /Widget /Parent 11 0 R /AS /Off >>".to_vec()),
    ]);
    let doc = read_pdf(&fixture).unwrap();
    let (bytes, report) = subset_to_bytes(&[&doc], &[(0, 0)], SubsetOptions::default()).unwrap();
    assert_eq!(report.form_fields, 1);
    let out = read_pdf(&bytes).unwrap();
    let form = catalog(&out).get("AcroForm").and_then(|o| resolve(&out, o)).unwrap().as_dict().unwrap();
    assert!(matches!(form.get("Q"), Some(Object::Integer(1))));
    let fields = form.get("Fields").unwrap().as_array().unwrap();
    assert_eq!(fields.len(), 1);
    let top = resolve(&out, &fields[0]).unwrap().as_dict().unwrap();
    assert_eq!(top.get("T").unwrap().as_string(), Some(&b"form"[..]));
    let kids = top.get("Kids").unwrap().as_array().unwrap();
    assert_eq!(kids.len(), 1);
    let choice = resolve(&out, &kids[0]).unwrap().as_dict().unwrap();
    assert!(choice.is_name("V", "On"));
    assert_eq!(choice.get_ref("Parent").unwrap().id, fields[0].as_reference().unwrap().id);
    let widgets = choice.get("Kids").unwrap().as_array().unwrap();
    assert_eq!(widgets.len(), 2, "the widget of the dropped page is gone");
    for w in widgets {
        let d = resolve(&out, w).unwrap().as_dict().unwrap();
        assert_eq!(d.get_ref("Parent").unwrap().id, kids[0].as_reference().unwrap().id);
    }
}

#[test]
fn the_parent_tree_has_each_mark_in_its_place() {
    let fixture = write_fixture(&[
        (1, b"<< /Type /Catalog /Pages 2 0 R /StructTreeRoot 30 0 R >>".to_vec()),
        (2, b"<< /Type /Pages /Kids [3 0 R 5 0 R] /Count 2 >>".to_vec()),
        (3, b"<< /Type /Page /Parent 2 0 R >>".to_vec()),
        (5, b"<< /Type /Page /Parent 2 0 R >>".to_vec()),
        (30, b"<< /Type /StructTreeRoot /K [31 0 R 32 0 R 33 0 R] /ClassMap << /A 1 >> >>".to_vec()),
        (31, b"<< /S /P /Pg 5 0 R /K [3 << /Type /MCR /Pg 3 0 R /MCID 1 >> << /Type /OBJR /Obj 3 0 R >>] /Alt (x) >>".to_vec()),
        (32, b"<< /S /Sect /K << /S /P /Pg 3 0 R /K [0 -4] >> >>".to_vec()),
        (33, b"<< /S /P /K 7 >>".to_vec()),
    ]);
    let doc = read_pdf(&fixture).unwrap();
    let (bytes, report) =
        subset_to_bytes(&[&doc], &[(0, 1), (0, 0)], SubsetOptions::default()).unwrap();
    assert_eq!(report.struct_elements, 3);
    let out = read_pdf(&bytes).unwrap();
    assert!(matches!(page_dict(&out, 0).get("StructParents"), Some(Object::Integer(0))));
    assert!(matches!(page_dict(&out, 1).get("StructParents"), Some(Object::Integer(1))));
    let root = catalog(&out).get("StructTreeRoot").and_then(|o| resolve(&out, o)).unwrap().as_dict().unwrap();
    assert!(matches!(root.get("ParentTreeNextKey"), Some(Object::Integer(2))));
    assert!(root.contains_key("ClassMap"));
    let tops = root.get("K").unwrap().as_array().unwrap();
    assert_eq!(tops.len(), 2);
    let tree = root.get("ParentTree").and_then(|o| resolve(&out, o)).unwrap().as_dict().unwrap();
    let nums = tree.get("Nums").unwrap().as_array().unwrap();
    assert_eq!(nums.len(), 4);
    let row = |i: usize| nums[i].as_array().unwrap();
    // The first row is that of the second source page: its one mark has number 3.
    assert_eq!(row(1).len(), 4);
    assert!((0..3).all(|i| matches!(row(1)[i], Object::Null)));
    let first = row(1)[3].as_reference().unwrap().id;
    assert_eq!(first, tops[0].as_reference().unwrap().id);
    assert_eq!(row(3).len(), 2);
    assert_eq!(row(3)[1].as_reference().unwrap().id, first);
    let inner = resolve(&out, &row(3)[0]).unwrap().as_dict().unwrap();
    assert!(inner.is_name("S", "P"));
    assert_eq!(inner.get("K").unwrap().as_array().unwrap().len(), 2);
}

#[test]
fn without_the_structure_tree_none_is_kept() {
    let doc = read_pdf(&build_tagged_fixture()).unwrap();
    let opts = SubsetOptions { keep_struct_tree: false, ..SubsetOptions::default() };
    let (bytes, report) = subset_to_bytes(&[&doc], &[(0, 0)], opts).unwrap();
    assert_eq!(report.struct_elements, 0);
    assert!(!holds(&bytes, b"StructTreeRoot") && !holds(&bytes, b"MarkInfo"));
}

/// One page, and document information that equals the dictionary of a page's group.
fn build_info_fixture() -> Vec<u8> {
    let mut bytes = write_fixture(&[
        (1, b"<< /Type /Catalog /Pages 2 0 R >>".to_vec()),
        (2, b"<< /Type /Pages /Kids [3 0 R] /Count 1 >>".to_vec()),
        (3, b"<< /Type /Page /Parent 2 0 R /Group 6 0 R >>".to_vec()),
        (6, b"<< /Title (x) >>".to_vec()),
        (7, b"<< /Title (x) >>".to_vec()),
    ]);
    let at = bytes.windows(5).rposition(|w| w == b"/Root").unwrap();
    bytes.splice(at..at, b"/Info 7 0 R ".iter().copied());
    bytes
}

#[test]
fn the_document_information_is_carried() {
    let doc = read_pdf(&build_info_fixture()).unwrap();
    let (bytes, report) = subset_to_bytes(&[&doc], &[(0, 0)], SubsetOptions::default()).unwrap();
    let out = read_pdf(&bytes).unwrap();
    let info = out.trailer().as_dict().unwrap().get("Info").and_then(|o| resolve(&out, o)).unwrap();
    assert_eq!(info.as_dict().unwrap().get("Title").unwrap().as_string(), Some(&b"x"[..]));
    // It is the one object with the page's group.
    assert_eq!(report.objects_deduped, 1);
    assert_eq!(
        page_dict(&out, 0).get_ref("Group").unwrap().id,
        out.trailer().as_dict().unwrap().get_ref("Info").unwrap().id
    );
}

#[test]
fn names_and_strings_are_escaped() {
    let mut doc = PdfDocument::new(Object::Null);
    let mut page = Dict::new();
    let mut group = Dict::new();
    group.insert("A b#/\u{e9}", Object::String(b"(a\\b)\r\n\xff".to_vec()));
    group.insert("R", Object::Real("0.5".to_string()));
    group.insert("B", Object::Boolean(false));
    group.insert("N", Object::Integer(-7));
    group.insert("Z", Object::Null);
    page.insert("Group", Object::Dictionary(group));
    doc.add_page(SourcePage {
        object: Object::Dictionary(page),
        content: Content::Unparsable,
        resources: Object::Null,
        inks: Vec::new(),
    });
    let (bytes, _) = subset_to_bytes(&[&doc], &[(0, 0)], SubsetOptions::default()).unwrap();
    assert!(holds(
        &bytes,
        b"<< /A#20b#23#2F#C3#A9 (\\(a\\\\b\\)\\r\\n\xff) /B false /N -7 /R 0.5 /Z null >>"
    ));
}

#[test]
fn only_the_used_names_of_each_kind_are_kept() {
    let fixture = write_fixture(&[
        (1, b"<< /Type /Catalog /Pages 2 0 R >>".to_vec()),
        (2, b"<< /Type /Pages /Kids [3 0 R] /Count 1 >>".to_vec()),
        (
            3,
            b"<< /Type /Page /Parent 2 0 R /Contents 4 0 R /Resources << /ProcSet [/PDF] \
              /Font << /F1 1 /F2 2 >> /ExtGState << /G1 1 /G2 2 >> /ColorSpace << /C1 1 /C2 2 >> \
              /Shading << /S1 1 /S2 2 >> /Properties << /M1 1 /M2 2 >> /Pattern << /P1 1 >> /Custom 9 >> >>"
                .to_vec(),
        ),
        (4, stream_obj("", b"/F1 9 Tf /G2 gs /C1 cs /S2 sh /Span /M1 BDC EMC")),
    ]);
    let doc = read_pdf(&fixture).unwrap();
    let (bytes, _) = subset_to_bytes(&[&doc], &[(0, 0)], SubsetOptions::default()).unwrap();
    let out = read_pdf(&bytes).unwrap();
    let res = page_dict(&out, 0).get("Resources").unwrap().as_dict().unwrap();
    let names = |key: &str| -> Vec<String> {
        match res.get(key).and_then(|o| o.as_dict()) {
            Some(d) => (0..d.len()).map(|i| d.key_at(i).clone()).collect(),
            None => Vec::new(),
        }
    };
    assert_eq!(names("Font"), vec!["F1"]);
    assert_eq!(names("ExtGState"), vec!["G2"]);
    assert_eq!(names("ColorSpace"), vec!["C1"]);
    assert_eq!(names("Shading"), vec!["S2"]);
    assert_eq!(names("Properties"), vec!["M1"]);
    assert!(!res.contains_key("Pattern") && !res.contains_key("Custom"));
    assert!(res.contains_key("ProcSet"));
}

/// A file whose signature stands in a field above its widget.
fn build_split_signature_fixture() -> Vec<u8> {
    write_fixture(&[
        (1, b"<< /Type /Catalog /Pages 2 0 R /AcroForm << /Fields [10 0 R] >> >>".to_vec()),
        (2, b"<< /Type /Pages /Kids [3 0 R] /Count 1 >>".to_vec()),
        (3, b"<< /Type /Page /Parent 2 0 R /Annots [11 0 R 12 0 R] >>".to_vec()),
        (10, b"<< /T (sig) /FT /Sig /V 13 0 R /Kids [11 0 R] >>".to_vec()),
        (11, b"<< /Subtype /Widget /Parent 10 0 R /AP << /N 14 0 R >> >>".to_vec()),
        (12, b"<< /Subtype /Widget /FT /Tx /T (name) >>".to_vec()),
        (13, b"<< /Type /Sig /ByteRange [0 1 2 3] >>".to_vec()),
        (14, stream_obj("/Subtype /Form", b"q Q")),
    ])
}

#[test]
fn a_signature_of_a_field_above_the_widget_is_dropped() {
    let doc = read_pdf(&build_split_signature_fixture()).unwrap();
    let (bytes, report) = subset_to_bytes(&[&doc], &[(0, 0)], SubsetOptions::default()).unwrap();
    assert_eq!(report.dropped_signatures, 1);
    assert_eq!(report.form_fields, 1, "only the text field is left");
    assert!(!holds(&bytes, b"/ByteRange"));
    assert!(!holds(&bytes, b"/Sig"));
    let out = read_pdf(&bytes).unwrap();
    let annot = first_annot(&out, 0).unwrap();
    assert!(annot.contains_key("AP") && !annot.contains_key("Parent"));
}

#[test]
fn a_signature_of_a_field_above_the_widget_is_refused() {
    let doc = read_pdf(&build_split_signature_fixture()).unwrap();
    let opts = SubsetOptions { on_signature: SignaturePolicy::Refuse, ..SubsetOptions::default() };
    let e = subset_to_bytes(&[&doc], &[(0, 0)], opts).unwrap_err();
    assert_eq!(
        message(&e),
        "page 0 carries a digital signature; subsetting would invalidate it (SignaturePolicy::Refuse)"
    );
}

#[test]
fn a_signature_is_not_dragged_in_by_a_way_round_its_widget() {
    // The popup leads back to its note, that to the page, and that to the signature.
    let doc = read_pdf(&write_fixture(&[
        (1, b"<< /Type /Catalog /Pages 2 0 R /AcroForm << /Fields [11 0 R] >> >>".to_vec()),
        (2, b"<< /Type /Pages /Kids [3 0 R] /Count 1 >>".to_vec()),
        (3, b"<< /Type /Page /Parent 2 0 R /Annots [10 0 R 11 0 R] >>".to_vec()),
        (10, b"<< /Subtype /Text /Contents (note) /P 3 0 R /Popup 12 0 R >>".to_vec()),
        (11, b"<< /Subtype /Widget /FT /Sig /T (sig) /V 13 0 R /P 3 0 R >>".to_vec()),
        (12, b"<< /Subtype /Popup /Parent 10 0 R >>".to_vec()),
        (13, b"<< /Type /Sig /Contents <00> /ByteRange [0 1 2 3] /Cert (key) >>".to_vec()),
    ]))
    .unwrap();
    for dedup in [true, false] {
        let opts = SubsetOptions { dedup, ..SubsetOptions::default() };
        let (bytes, report) = subset_to_bytes(&[&doc], &[(0, 0)], opts).unwrap();
        assert_eq!(report.dropped_signatures, 1);
        assert!(!holds(&bytes, b"/ByteRange"));
        assert!(!holds(&bytes, b"/Cert"));
        assert!(holds(&bytes, b"(note)"));
    }
}

#[test]
fn a_signature_dictionary_is_told_by_its_type_or_its_byte_range() {
    let kept = |value: &str| {
        let page = format!("<< /Type /Page /Parent 2 0 R /Group << /Thing {value} >> >>");
        let doc = read_pdf(&write_fixture(&[
            (1, b"<< /Type /Catalog /Pages 2 0 R >>".to_vec()),
            (2, b"<< /Type /Pages /Kids [3 0 R] /Count 1 >>".to_vec()),
            (3, page.into_bytes()),
            (4, b"[0 1 2 3]".to_vec()),
        ]))
        .unwrap();
        let (bytes, _) = subset_to_bytes(&[&doc], &[(0, 0)], SubsetOptions::default()).unwrap();
        holds(&bytes, b"/ByteRange")
    };
    assert!(!kept("<< /ByteRange [0 1 2 3] >>"));
    assert!(!kept("[ (a) << /ByteRange [0 1 2 3] /Contents (b) >> ]"));
    assert!(!kept("<< /ByteRange 4 0 R /Contents (b) >>"));
    assert!(!kept("<< /Type /Sig /ByteRange 4 0 R >>"));
    // A resource of that name is no signature.
    assert!(kept("<< /ByteRange 4 0 R >>"));
    assert!(kept("<< /ByteRange [/ICCBased 4 0 R] >>"));
}

#[test]
fn every_reference_leads_to_an_object() {
    let fixtures = [
        build_bloated_fixture(),
        build_signed_fixture(),
        build_outline_fixture(),
        build_form_fixture(),
        build_tagged_fixture(),
        build_form_doc_fixture(),
        build_info_fixture(),
    ];
    for fixture in fixtures {
        let doc = read_pdf(&fixture).unwrap();
        for dedup in [true, false] {
            let opts = SubsetOptions { dedup, ..SubsetOptions::default() };
            let (bytes, report) = subset_to_bytes(&[&doc], &[(0, 0)], opts).unwrap();
            let out = read_pdf(&bytes).unwrap();
            for id in 1..=report.objects_written {
                let mut refs = Vec::new();
                collect_refs(load(&out, id).unwrap(), &mut refs);
                assert!(refs.iter().all(|r| 1 <= *r && *r <= report.objects_written));
            }
        }
    }
}

#[test]
fn the_page_tree_counts_and_lists_the_choices_in_order() {
    let doc = read_pdf(&build_bloated_fixture()).unwrap();
    let (bytes, _) = subset_to_bytes(&[&doc], &[(0, 2), (0, 0), (0, 1)], SubsetOptions::default()).unwrap();
    let out = read_pdf(&bytes).unwrap();
    let tree = catalog(&out).get("Pages").and_then(|o| resolve(&out, o)).unwrap().as_dict().unwrap();
    assert!(matches!(tree.get("Count"), Some(Object::Integer(3))));
    assert_eq!(tree.get("Kids").unwrap().as_array().unwrap().len(), 3);
    assert!(extract_text(&out, 0).contains("Page3"));
    assert!(extract_text(&out, 1).contains("Page1"));
    assert!(extract_text(&out, 2).contains("Page2"));
}

#[test]
fn outline_entries_name_their_neighbours() {
    let fixture = write_fixture(&[
        (1, b"<< /Type /Catalog /Pages 2 0 R /Outlines 10 0 R >>".to_vec()),
        (2, b"<< /Type /Pages /Kids [3 0 R 5 0 R] /Count 2 >>".to_vec()),
        (3, b"<< /Type /Page /Parent 2 0 R >>".to_vec()),
        (5, b"<< /Type /Page /Parent 2 0 R >>".to_vec()),
        (10, b"<< /First 11 0 R >>".to_vec()),
        (11, b"<< /Title (a) /Dest [3 0 R] /Next 12 0 R >>".to_vec()),
        (12, b"<< /Title (gone) /Dest [5 0 R] /Next 13 0 R >>".to_vec()),
        (13, b"<< /Title (b) /Dest [3 0 R] /Next 14 0 R >>".to_vec()),
        (14, b"<< /Title (c) /Dest [3 0 R] >>".to_vec()),
    ]);
    let doc = read_pdf(&fixture).unwrap();
    let (bytes, _) = subset_to_bytes(&[&doc], &[(0, 0)], SubsetOptions::default()).unwrap();
    let out = read_pdf(&bytes).unwrap();
    let root = catalog(&out).get("Outlines").and_then(|o| resolve(&out, o)).unwrap().as_dict().unwrap();
    let a = root.get_ref("First").unwrap();
    let entry = |r: ObjectRef| load(&out, r.id).unwrap().as_dict().unwrap();
    let b = entry(a).get_ref("Next").unwrap();
    let c = entry(b).get_ref("Next").unwrap();
    assert!(entry(a).get_ref("Prev").is_none());
    assert_eq!(entry(b).get_ref("Prev"), Some(a));
    assert_eq!(entry(c).get_ref("Prev"), Some(b));
    assert!(entry(c).get_ref("Next").is_none());
    assert_eq!(root.get_ref("Last"), Some(c));
}

#[test]
fn a_form_that_two_pages_draw_is_written_once() {
    let fixture = write_fixture(&[
        (1, b"<< /Type /Catalog /Pages 2 0 R >>".to_vec()),
        (2, b"<< /Type /Pages /Kids [3 0 R 4 0 R] /Count 2 >>".to_vec()),
        (3, b"<< /Type /Page /Parent 2 0 R /Contents 5 0 R /Resources << /XObject << /A 6 0 R >> >> >>".to_vec()),
        (4, b"<< /Type /Page /Parent 2 0 R /Contents 7 0 R /Resources << /XObject << /B 6 0 R >> >> >>".to_vec()),
        (5, stream_obj("", b"/A Do")),
        (6, stream_obj("/Subtype /Form", b"q Q")),
        (7, stream_obj("", b"/B Do")),
    ]);
    let doc = read_pdf(&fixture).unwrap();
    let opts = SubsetOptions { dedup: false, ..SubsetOptions::default() };
    let (bytes, report) = subset_to_bytes(&[&doc], &[(0, 0), (0, 1)], opts).unwrap();
    assert_eq!(report.objects_written, 7);
    assert_eq!(report.objects_deduped, 0);
    let forms = bytes.windows(b"/Subtype /Form".len()).filter(|w| w == b"/Subtype /Form").count();
    assert_eq!(forms, 1);
}

/// How many objects of the file have the given type.
fn count_type(bytes: &[u8], kind: &str) -> usize {
    let out = read_pdf(bytes).unwrap();
    let mut n = 0;
    let mut id = 1;
    while let Some(o) = load(&out, id) {
        if o.as_dict().is_some_and(|d| d.is_name("Type", kind)) {
            n += 1;
        }
        id += 1;
    }
    n
}

#[test]
fn an_action_holds_no_reference_but_its_page() {
    let fixture = write_fixture(&[
        (1, b"<< /Type /Catalog /Pages 2 0 R >>".to_vec()),
        (2, b"<< /Type /Pages /Kids [3 0 R] /Count 1 >>".to_vec()),
        (3, b"<< /Type /Page /Parent 2 0 R /Annots [4 0 R 5 0 R] >>".to_vec()),
        (
            4,
            b"<< /Subtype /Link /A << /S /URI /URI 6 0 R /IsMap 7 0 R /Odd [8 0 R 9 0 R] /Next 4 0 R >> >>".to_vec(),
        ),
        (5, b"<< /Subtype /Link /A << /S /GoTo /D [3 0 R /XYZ 7 0 R null 9 0 R] >> >>".to_vec()),
        (6, b"(http://x)".to_vec()),
        (7, b"12".to_vec()),
        (8, b"<< /A 1 >>".to_vec()),
    ]);
    let doc = read_pdf(&fixture).unwrap();
    let (bytes, _) = subset_to_bytes(&[&doc], &[(0, 0)], SubsetOptions::default()).unwrap();
    let out = read_pdf(&bytes).unwrap();
    let annots = page_dict(&out, 0).get("Annots").unwrap().as_array().unwrap();
    let action = |i: usize| resolve(&out, &annots[i]).unwrap().as_dict().unwrap().get("A").unwrap().as_dict().unwrap();
    let uri = action(0);
    assert_eq!(uri.get("URI").unwrap().as_string(), Some(&b"http://x"[..]));
    assert!(matches!(uri.get("IsMap"), Some(Object::Integer(12))));
    let odd = uri.get("Odd").unwrap().as_array().unwrap();
    assert!(matches!(odd[0], Object::Null) && matches!(odd[1], Object::Null));
    assert!(!uri.contains_key("Next"));
    let dest = action(1).get("D").unwrap().as_array().unwrap();
    assert_eq!(dest[0].as_reference().unwrap().id, 1);
    assert!(matches!(dest[2], Object::Integer(12)));
    assert!(matches!(dest[3], Object::Null) && matches!(dest[4], Object::Null));
}

#[test]
fn a_bookmark_that_leads_to_no_page_is_dropped() {
    let fixture = write_fixture(&[
        (1, b"<< /Type /Catalog /Pages 2 0 R /Outlines 10 0 R >>".to_vec()),
        (2, b"<< /Type /Pages /Kids [3 0 R] /Count 1 >>".to_vec()),
        (3, b"<< /Type /Page /Parent 2 0 R >>".to_vec()),
        (10, b"<< /First 11 0 R >>".to_vec()),
        (11, b"<< /Title (web) /A << /S /URI /URI (http://x) >> /Next 12 0 R >>".to_vec()),
        (12, b"<< /Title 14 0 R /Dest [3 0 R] /C 15 0 R /Next 13 0 R >>".to_vec()),
        (13, b"<< /Title (print) /A << /S /Named /N /Print >> >>".to_vec()),
        (14, b"(here)".to_vec()),
        (15, b"[1 0 0]".to_vec()),
    ]);
    let doc = read_pdf(&fixture).unwrap();
    let (bytes, report) = subset_to_bytes(&[&doc], &[(0, 0)], SubsetOptions::default()).unwrap();
    assert_eq!(report.outline_entries, 1);
    let out = read_pdf(&bytes).unwrap();
    let root = catalog(&out).get("Outlines").and_then(|o| resolve(&out, o)).unwrap().as_dict().unwrap();
    let here = root.get("First").and_then(|o| resolve(&out, o)).unwrap().as_dict().unwrap();
    // What a title or a colour refers to is put in its place.
    assert_eq!(here.get("Title").unwrap().as_string(), Some(&b"here"[..]));
    assert_eq!(here.get("C").unwrap().as_array().unwrap().len(), 3);
}

#[test]
fn a_kept_page_is_written_once() {
    let fixture = write_fixture(&[
        (1, b"<< /Type /Catalog /Pages 2 0 R >>".to_vec()),
        (2, b"<< /Type /Pages /Kids [3 0 R 9 0 R] /Count 2 >>".to_vec()),
        (3, b"<< /Type /Page /Parent 2 0 R /Annots [4 0 R] >>".to_vec()),
        (4, b"<< /Subtype /Text /Popup 5 0 R >>".to_vec()),
        (5, b"<< /Subtype /Popup /P 3 0 R /Parent 4 0 R >>".to_vec()),
        (9, b"<< /Type /Page /Parent 2 0 R >>".to_vec()),
    ]);
    let doc = read_pdf(&fixture).unwrap();
    for dedup in [true, false] {
        let opts = SubsetOptions { dedup, ..SubsetOptions::default() };
        let (bytes, _) = subset_to_bytes(&[&doc], &[(0, 0)], opts).unwrap();
        let out = read_pdf(&bytes).unwrap();
        let popup = first_annot(&out, 0).unwrap().get("Popup").and_then(|o| resolve(&out, o)).unwrap();
        assert_eq!(popup.as_dict().unwrap().get_ref("P").unwrap().id, 1);
        assert_eq!(count_type(&bytes, "Page"), 1);
        assert_eq!(count_type(&bytes, "Pages"), 1);
    }
}

#[test]
fn a_page_that_was_not_chosen_is_not_dragged_in() {
    // A page that is in no page tree, and the node of another tree.
    let fixture = write_fixture(&[
        (1, b"<< /Type /Catalog /Pages 2 0 R >>".to_vec()),
        (2, b"<< /Type /Pages /Kids [3 0 R] /Count 1 >>".to_vec()),
        (3, b"<< /Type /Page /Parent 2 0 R /Group << /Hidden 4 0 R /Tree 2 0 R /Plain 5 0 R >> >>".to_vec()),
        (4, b"<< /Type /Page /Parent 2 0 R /Secret (x) >>".to_vec()),
        (5, b"<< /Type /Other >>".to_vec()),
    ]);
    let doc = read_pdf(&fixture).unwrap();
    let (bytes, _) = subset_to_bytes(&[&doc], &[(0, 0)], SubsetOptions::default()).unwrap();
    assert_eq!(count_type(&bytes, "Page"), 1);
    assert_eq!(count_type(&bytes, "Pages"), 1);
    assert_eq!(count_type(&bytes, "Other"), 1);
    assert!(!holds(&bytes, b"Secret"));
}

#[test]
fn what_a_form_takes_from_the_page_is_kept() {
    let fixture = write_fixture(&[
        (1, b"<< /Type /Catalog /Pages 2 0 R >>".to_vec()),
        (2, b"<< /Type /Pages /Kids [3 0 R] /Count 1 >>".to_vec()),
        (
            3,
            b"<< /Type /Page /Parent 2 0 R /Contents 4 0 R /Resources << /Font << /F1 7 0 R /F2 8 0 R /F3 9 0 R >> \
              /XObject << /A 5 0 R /B 6 0 R /C 10 0 R >> >> >>"
                .to_vec(),
        ),
        (4, stream_obj("", b"/A Do")),
        // The form has no resources, and draws one that has none either.
        (5, stream_obj("/Subtype /Form", b"BT /F1 9 Tf ET /B Do")),
        (6, stream_obj("/Subtype /Form", b"BT /F2 9 Tf ET /B Do")),
        (7, b"<< /Type /Font /BaseFont /One >>".to_vec()),
        (8, b"<< /Type /Font /BaseFont /Two >>".to_vec()),
        (9, b"<< /Type /Font /BaseFont /Three >>".to_vec()),
        (10, stream_obj("/Subtype /Form", b"BT /F3 9 Tf ET")),
    ]);
    let doc = read_pdf(&fixture).unwrap();
    let (bytes, _) = subset_to_bytes(&[&doc], &[(0, 0)], SubsetOptions::default()).unwrap();
    let out = read_pdf(&bytes).unwrap();
    let res = page_dict(&out, 0).get("Resources").unwrap().as_dict().unwrap();
    let font = res.get("Font").unwrap().as_dict().unwrap();
    assert!(font.contains_key("F1") && font.contains_key("F2") && !font.contains_key("F3"));
    let forms = res.get("XObject").unwrap().as_dict().unwrap();
    assert!(forms.contains_key("A") && forms.contains_key("B") && !forms.contains_key("C"));
}

#[test]
fn a_procedure_set_is_written_without_references() {
    let fixture = write_fixture(&[
        (1, b"<< /Type /Catalog /Pages 2 0 R >>".to_vec()),
        (2, b"<< /Type /Pages /Kids [3 0 R] /Count 1 >>".to_vec()),
        (3, b"<< /Type /Page /Parent 2 0 R /Resources << /ProcSet 5 0 R >> >>".to_vec()),
        (5, b"[/PDF /Text]".to_vec()),
    ]);
    let doc = read_pdf(&fixture).unwrap();
    let (bytes, _) = subset_to_bytes(&[&doc], &[(0, 0)], SubsetOptions::default()).unwrap();
    let out = read_pdf(&bytes).unwrap();
    let res = page_dict(&out, 0).get("Resources").unwrap().as_dict().unwrap();
    assert_eq!(res.get("ProcSet").unwrap().as_array().unwrap().len(), 2);
}

#[test]
fn different_objects_are_never_collapsed() {
    // The arrays would read alike if strings and names did not tell where they end.
    let fixture = write_fixture(&[
        (1, b"<< /Type /Catalog /Pages 2 0 R >>".to_vec()),
        (2, b"<< /Type /Pages /Kids [3 0 R] /Count 1 >>".to_vec()),
        (3, b"<< /Type /Page /Parent 2 0 R /Group << /A 4 0 R /B 5 0 R /C 6 0 R /D 7 0 R /E 8 0 R /F 9 0 R >> >>".to_vec()),
        (4, b"[(a) (b)]".to_vec()),
        (5, b"[(a\\) \\(b)]".to_vec()),
        (6, b"[/a /b]".to_vec()),
        (7, b"[/a#20#2Fb]".to_vec()),
        (8, b"[(a) (b)]".to_vec()),
        (9, b"[/a#20#2Fb]".to_vec()),
    ]);
    let doc = read_pdf(&fixture).unwrap();
    let (bytes, report) = subset_to_bytes(&[&doc], &[(0, 0)], SubsetOptions::default()).unwrap();
    assert_eq!(report.objects_deduped, 2);
    let out = read_pdf(&bytes).unwrap();
    let group = page_dict(&out, 0).get("Group").unwrap().as_dict().unwrap();
    let items = |key: &str| group.get(key).and_then(|o| resolve(&out, o)).unwrap().as_array().unwrap().len();
    assert_eq!((items("A"), items("B"), items("C"), items("D")), (2, 1, 2, 1));
    assert_eq!(group.get_ref("A"), group.get_ref("E"));
    assert_eq!(group.get_ref("D"), group.get_ref("F"));
}

#[test]
fn numbers_that_are_written_alike_are_collapsed() {
    let fixture = write_fixture(&[
        (1, b"<< /Type /Catalog /Pages 2 0 R >>".to_vec()),
        (2, b"<< /Type /Pages /Kids [3 0 R] /Count 1 >>".to_vec()),
        (3, b"<< /Type /Page /Parent 2 0 R /Group << /A 4 0 R /B 5 0 R /C 6 0 R >> >>".to_vec()),
        (4, b"1".to_vec()),
        (5, b"1.0".to_vec()),
        (6, b"-1".to_vec()),
    ]);
    let doc = read_pdf(&fixture).unwrap();
    let (bytes, report) = subset_to_bytes(&[&doc], &[(0, 0)], SubsetOptions::default()).unwrap();
    assert_eq!(report.objects_deduped, 1);
    let out = read_pdf(&bytes).unwrap();
    let group = page_dict(&out, 0).get("Group").unwrap().as_dict().unwrap();
    assert_eq!(group.get_ref("A"), group.get_ref("B"));
    assert!(group.get_ref("A") != group.get_ref("C"));
}

#[test]
fn what_was_copied_is_not_copied_again() {
    let doc = read_pdf(&write_fixture(&[
        (1, b"<< /Type /Catalog /Pages 2 0 R >>".to_vec()),
        (2, b"<< /Type /Pages /Kids [3 0 R] /Count 1 >>".to_vec()),
        (3, b"<< /Type /Page /Parent 2 0 R /Contents 4 0 R /Resources << /XObject << /A 5 0 R >> >> >>".to_vec()),
        (4, stream_obj("", b"/A Do")),
        (5, stream_obj("/Subtype /Form", b"q Q")),
        (6, b"<< /FT /Tx /T (field) >>".to_vec()),
        (7, b"<< /Of 5 0 R >>".to_vec()),
    ]))
    .unwrap();
    let docs = [&doc];
    let mut b = Builder::new(&docs, SubsetOptions::default());
    let page = b.allocate();
    let object = b.import(0, ObjectRef::new(7, 0), 0);
    let form = b.import_form_trimmed(0, ObjectRef::new(5, 0), 0);
    let field = b.import_form_field(0, ObjectRef::new(6, 0), 0);
    let missing = b.import(0, ObjectRef::new(99, 0), 0);
    assert!(matches!(b.slots[missing - 1].object, Some(Object::Null)));
    b.build_page(0, 0, page).unwrap();
    let places = b.slots.len();
    assert_eq!(b.import(0, ObjectRef::new(7, 0), 3), object);
    assert_eq!(b.import_form_trimmed(0, ObjectRef::new(5, 0), 2), form);
    assert_eq!(b.import_form_field(0, ObjectRef::new(6, 0), 1), field);
    assert_eq!(b.import(0, ObjectRef::new(99, 0), 0), missing);
    assert_eq!(b.slots.len(), places);
    let mut numbers = vec![page, object, form, field, missing];
    numbers.sort_unstable();
    numbers.dedup();
    assert_eq!(numbers.len(), 5);
}

#[test]
fn a_page_that_is_refused_leaves_no_trace() {
    let doc = read_pdf(&build_signed_fixture()).unwrap();
    let docs = [&doc];
    let opts = SubsetOptions { on_signature: SignaturePolicy::Refuse, ..SubsetOptions::default() };
    let mut b = Builder::new(&docs, opts);
    let page = b.allocate();
    assert!(b.build_page(0, 0, page).is_err());
    assert!(b.page_ids.is_empty());
    assert_eq!(b.slots.len(), 1);
    assert!(b.slots[0].object.is_none());
    assert!(b.warnings.is_empty());
}

#[test]
fn a_report_can_be_copied() {
    let report = SubsetReport::default();
    assert_eq!(report.clone().objects_written, 0);
}

#[test]
fn spaces_that_stand_for_device_spaces_are_kept_where_those_are_painted_with() {
    let kept = |content: &[u8]| -> Vec<String> {
        let fixture = write_fixture(&[
            (1, b"<< /Type /Catalog /Pages 2 0 R >>".to_vec()),
            (2, b"<< /Type /Pages /Kids [3 0 R] /Count 1 >>".to_vec()),
            (
                3,
                b"<< /Type /Page /Parent 2 0 R /Contents 4 0 R /Resources << /XObject << /I 5 0 R >> /ColorSpace \
                  << /DefaultGray 1 /DefaultRGB 2 /DefaultCMYK 3 /Other 4 >> >> >>"
                    .to_vec(),
            ),
            (4, stream_obj("", content)),
            (5, stream_obj("/Subtype /Image", b"x")),
        ]);
        let doc = read_pdf(&fixture).unwrap();
        let (bytes, _) = subset_to_bytes(&[&doc], &[(0, 0)], SubsetOptions::default()).unwrap();
        let out = read_pdf(&bytes).unwrap();
        let res = page_dict(&out, 0).get("Resources").unwrap().as_dict().unwrap();
        match res.get("ColorSpace").and_then(|o| o.as_dict()) {
            Some(d) => (0..d.len()).map(|i| d.key_at(i).clone()).collect(),
            None => Vec::new(),
        }
    };
    assert!(kept(b"q Q").is_empty());
    assert_eq!(kept(b"1 0 0 0 k"), vec!["DefaultCMYK"]);
    assert_eq!(kept(b"1 0 0 rg"), vec!["DefaultRGB"]);
    assert_eq!(kept(b"/DeviceRGB cs"), vec!["DefaultRGB"]);
    // What is painted at first is black, in gray.
    assert_eq!(kept(b"f"), vec!["DefaultGray"]);
    assert_eq!(kept(b"/I Do"), vec!["DefaultCMYK", "DefaultGray", "DefaultRGB"]);
}

#[test]
fn content_that_cannot_be_read_keeps_its_resources() {
    let mut names = Dict::new();
    names.insert("F1", Object::Integer(1));
    names.insert("F2", Object::Integer(2));
    let mut res = Dict::new();
    res.insert("Font", Object::Dictionary(names));
    let mut page = Dict::new();
    page.insert("Resources", Object::Dictionary(res));
    let mut doc = PdfDocument::new(Object::Null);
    for content in [Content::Undecodable, Content::Unparsable, Content::Operators(Vec::new())] {
        doc.add_page(SourcePage {
            object: Object::Dictionary(page.clone()),
            content,
            resources: Object::Null,
            inks: Vec::new(),
        });
    }
    let (bytes, _) = subset_to_bytes(&[&doc], &[(0, 0), (0, 1), (0, 2)], SubsetOptions::default()).unwrap();
    let out = read_pdf(&bytes).unwrap();
    let fonts = |i: usize| {
        let res = page_dict(&out, i).get("Resources").unwrap().as_dict().unwrap();
        res.get("Font").map_or(0, |f| f.as_dict().unwrap().len())
    };
    assert_eq!((fonts(0), fonts(1), fonts(2)), (2, 2, 0));
}

#[test]
fn marked_content_without_a_page_lies_on_the_page_of_its_element() {
    let fixture = write_fixture(&[
        (1, b"<< /Type /Catalog /Pages 2 0 R /StructTreeRoot 30 0 R >>".to_vec()),
        (2, b"<< /Type /Pages /Kids [3 0 R 5 0 R] /Count 2 >>".to_vec()),
        (3, b"<< /Type /Page /Parent 2 0 R >>".to_vec()),
        (5, b"<< /Type /Page /Parent 2 0 R >>".to_vec()),
        (30, b"<< /K [31 0 R 32 0 R 33 0 R] >>".to_vec()),
        (31, b"<< /S /P /K << /Type /MCR /Pg 3 0 R /MCID 0 >> >>".to_vec()),
        (32, b"<< /S /P /Pg 3 0 R /K [<< /Type /MCR /MCID 1 >> 2 << /Type /OBJR /Obj 3 0 R >>] >>".to_vec()),
        (33, b"<< /S /P /Pg 5 0 R /K << /Type /MCR /MCID 3 >> >>".to_vec()),
    ]);
    let doc = read_pdf(&fixture).unwrap();
    let (bytes, report) = subset_to_bytes(&[&doc], &[(0, 0)], SubsetOptions::default()).unwrap();
    assert_eq!(report.struct_elements, 2);
    let out = read_pdf(&bytes).unwrap();
    let root = catalog(&out).get("StructTreeRoot").and_then(|o| resolve(&out, o)).unwrap().as_dict().unwrap();
    let tops = root.get("K").unwrap().as_array().unwrap();
    let tree = root.get("ParentTree").and_then(|o| resolve(&out, o)).unwrap().as_dict().unwrap();
    let row = tree.get("Nums").unwrap().as_array().unwrap()[1].as_array().unwrap();
    let ids: Vec<usize> = row.iter().map(|o| o.as_reference().unwrap().id).collect();
    let (a, b) = (tops[0].as_reference().unwrap().id, tops[1].as_reference().unwrap().id);
    assert_eq!(ids, vec![a, b, b]);
}

#[test]
fn the_stated_length_of_a_stream_is_written_anew() {
    let stream = |length: Object| {
        let mut dict = Dict::new();
        dict.insert("Subtype", Object::Name("Image".to_string()));
        dict.insert("Length", length);
        Object::Stream { dict, data: b"xyz".to_vec() }
    };
    let mut doc = PdfDocument::new(Object::Null);
    doc.add_object(7, stream(Object::Reference(ObjectRef::new(9, 0))));
    doc.add_object(8, stream(Object::Integer(77)));
    doc.add_object(9, Object::Integer(3));
    let mut group = Dict::new();
    group.insert("A", Object::Reference(ObjectRef::new(7, 0)));
    group.insert("B", Object::Reference(ObjectRef::new(8, 0)));
    let mut page = Dict::new();
    page.insert("Group", Object::Dictionary(group));
    doc.add_page(SourcePage {
        object: Object::Dictionary(page),
        content: Content::Operators(Vec::new()),
        resources: Object::Null,
        inks: Vec::new(),
    });
    // The streams are equal but for what they state, and nothing refers to the number.
    let (bytes, report) = subset_to_bytes(&[&doc], &[(0, 0)], SubsetOptions::default()).unwrap();
    assert_eq!(report.objects_deduped, 1);
    assert_eq!(report.objects_written, 4);
    assert!(holds(&bytes, b"<< /Subtype /Image /Length 3 >>\nstream\nxyz\nendstream"));
    assert!(!holds(&bytes, b"77"));
}

#[test]
fn inline_images_and_marked_points_use_what_they_name() {
    let mut spaces = Dict::new();
    spaces.insert("C1", Object::Integer(1));
    spaces.insert("C2", Object::Integer(2));
    let mut lists = Dict::new();
    lists.insert("P1", Object::Integer(1));
    lists.insert("P2", Object::Integer(2));
    let mut res = Dict::new();
    res.insert("ColorSpace", Object::Dictionary(spaces));
    res.insert("Properties", Object::Dictionary(lists));
    let mut page = Dict::new();
    page.insert("Resources", Object::Dictionary(res));
    let mut doc = PdfDocument::new(Object::Null);
    doc.add_page(SourcePage {
        object: Object::Dictionary(page),
        content: Content::Operators(vec![
            Operator::InlineImage { color_space: Some("C2".to_string()) },
            Operator::MarkedContentPointDict {
                tag: "Span".to_string(),
                properties: Object::Name("P1".to_string()),
            },
        ]),
        resources: Object::Null,
        inks: Vec::new(),
    });
    let (bytes, _) = subset_to_bytes(&[&doc], &[(0, 0)], SubsetOptions::default()).unwrap();
    assert!(holds(&bytes, b"/ColorSpace << /C2 2 >>"));
    assert!(holds(&bytes, b"/Properties << /P1 1 >>"));
}

#[test]
fn the_canonical_form_is_a_text_in_the_order_of_the_keys() {
    let mut d = Dict::new();
    d.insert("B", Object::Integer(2));
    d.insert(
        "A",
        Object::Array(vec![Object::Null, Object::Boolean(true), Object::Reference(ObjectRef::new(7, 0))]),
    );
    assert_eq!(canonical_bytes(&Object::Dictionary(d)), b"<</A [null true 7 R ] /B 2 >>");
    let form = |o: Object| String::from_utf8(canonical_bytes(&o)).unwrap();
    assert_eq!(form(Object::Boolean(false)), "false");
    assert_eq!(form(Object::Integer(-12)), "-12");
    assert_eq!(form(Object::Real("0.5".to_string())), "0.5");
    assert_eq!(form(Object::String(b"a(b".to_vec())), "(a(b)");
    assert_eq!(form(Object::Name("F\u{e9}".to_string())), "/F\u{e9}");
    let mut dict = Dict::new();
    dict.insert("N", Object::Integer(3));
    let stream = Object::Stream { dict, data: b"xyz".to_vec() };
    assert_eq!(form(stream.clone()), "<</N 3 >>streamxyz");
    // Only what would blur where a part ends is written otherwise.
    assert_eq!(form(Object::String(b"a)\\".to_vec())), "(a\\)\\\\)");
    assert_eq!(form(Object::Name("a b#".to_string())), "/a#20b#23");
    assert_eq!(form(Object::Real("7 R".to_string())), "7#20#52");
    assert_eq!(form(Object::Reference(ObjectRef::new(7, 2))), "7 R2");
    assert_eq!(form(Object::Array(vec![stream])), "[<</N 3 >>stream3 xyz ]");
}

#[test]
fn a_scan_records_the_names_that_the_content_has() {
    let content = Content::Operators(read_content(
        b"BT /FUsed 12 Tf 20 100 Td (Page1) Tj ET\nq 50 0 0 50 20 20 cm /ImA Do Q",
    ));
    let mut used = UsedNames::new();
    scan_used(&content, &mut used);
    assert!(used.fonts.contains(&"FUsed".to_string()) && used.xobjects.contains(&"ImA".to_string()));
    assert!(!used.xobjects.contains(&"FUsed".to_string()));
    assert!(used.extgstates.is_empty() && used.colorspaces.is_empty() && used.patterns.is_empty());
    assert!(used.shadings.is_empty() && used.properties.is_empty() && !used.all);
    let mut none = UsedNames::new();
    scan_used(&Content::Undecodable, &mut none);
    assert!(none.fonts.is_empty() && !none.all);
    used.insert(Category::Shading, &"S".to_string());
    assert!(!used.shadings.is_empty());
}

#[test]
fn a_value_of_a_signature_type_is_not_dragged_in() {
    // The field is copied for the sake of its text widget.
    let fixture = write_fixture(&[
        (1, b"<< /Type /Catalog /Pages 2 0 R >>".to_vec()),
        (2, b"<< /Type /Pages /Kids [3 0 R] /Count 1 >>".to_vec()),
        (3, b"<< /Type /Page /Parent 2 0 R /Annots [4 0 R 5 0 R] >>".to_vec()),
        (4, b"<< /Subtype /Widget /Parent 6 0 R >>".to_vec()),
        (5, b"<< /Subtype /Widget /Parent 6 0 R /FT /Tx /V (text) >>".to_vec()),
        (6, b"<< /FT /Sig /T (sig) /V 7 0 R >>".to_vec()),
        (7, b"<< /Type /Sig /Contents (secret) >>".to_vec()),
    ]);
    let doc = read_pdf(&fixture).unwrap();
    let (bytes, report) = subset_to_bytes(&[&doc], &[(0, 0)], SubsetOptions::default()).unwrap();
    assert_eq!(report.dropped_signatures, 1);
    assert_eq!(report.warnings.len(), 1);
    assert!(!holds(&bytes, b"/Type /Sig") && !holds(&bytes, b"secret"));
    assert!(holds(&bytes, b"(text)"));
}

#[test]
fn below_the_greatest_depth_copies_are_null() {
    let doc = read_pdf(&write_fixture(&[
        (1, b"<< /Type /Catalog /Pages 2 0 R /Outlines 8 0 R >>".to_vec()),
        (2, b"<< /Type /Pages /Kids [3 0 R] /Count 1 >>".to_vec()),
        (3, b"<< /Type /Page /Parent 2 0 R >>".to_vec()),
        (5, stream_obj("/Subtype /Form /Resources << /Font << /F 6 0 R >> >>", b"/F 1 Tf")),
        (6, b"<< /FT /Tx /T (field) /Parent 7 0 R >>".to_vec()),
        (7, b"<< /T (above) >>".to_vec()),
        (8, b"<< /First 9 0 R >>".to_vec()),
        (9, b"<< /Title (a) /Dest [3 0 R] >>".to_vec()),
    ]))
    .unwrap();
    for depth in [257, 10_000, usize::MAX] {
        let docs = [&doc];
        let mut b = Builder::new(&docs, SubsetOptions::default());
        let object = b.import(0, ObjectRef::new(6, 0), depth);
        assert!(matches!(b.slots[object - 1].object, Some(Object::Null)));
        let form = b.import_form_trimmed(0, ObjectRef::new(5, 0), depth);
        match &b.slots[form - 1].object {
            Some(Object::Stream { dict, data }) => {
                assert!(matches!(dict.get("Subtype"), Some(Object::Null)));
                assert_eq!(data, b"/F 1 Tf");
            },
            other => panic!("{other:?}"),
        }
        let field = b.import_form_field(0, ObjectRef::new(6, 0), depth);
        match &b.slots[field - 1].object {
            Some(Object::Dictionary(d)) => {
                assert!(matches!(d.get("T"), Some(Object::Null)) && !d.contains_key("Parent"));
            },
            other => panic!("{other:?}"),
        }
        let places = b.slots.len();
        assert!(b.build_outline_items(0, Some(ObjectRef::new(9, 0)), 1, depth).is_empty());
        assert_eq!(b.slots.len(), places);
    }
}

#[test]
fn pages_are_told_by_their_numbers() {
    let doc = read_pdf(&build_small_fixture()).unwrap();
    let docs = [&doc];
    let mut b = Builder::new(&docs, SubsetOptions::default());
    // The page stands behind another object, and beside a page that was not built.
    let other = b.allocate();
    let page = b.allocate();
    let stray = b.allocate();
    let mut fake = Dict::new();
    fake.insert("Type", Object::Name("Page".to_string()));
    b.put(stray, Object::Dictionary(fake));
    b.put(other, Object::Integer(1));
    b.build_page(0, 0, page).unwrap();
    b.drop_strays();
    assert!(matches!(&b.slots[page - 1].object, Some(Object::Dictionary(d)) if d.is_name("Type", "Page")));
    assert!(matches!(b.slots[stray - 1].object, Some(Object::Null)));
    assert!(matches!(b.slots[other - 1].object, Some(Object::Integer(1))));
}
