//! A parsed source document: its objects, its pages and its content streams.

use vstd::prelude::*;
use std::collections::HashMap;
use crate::object::{same_object, Obj, Object, ObjectRef};

verus! {

broadcast use vstd::std_specs::hash::group_hash_axioms;

/// A number of a content stream, held as the bits of its single-precision value.
#[derive(Clone, Copy, Debug, PartialEq, Eq, Structural)]
pub struct Scalar {
    pub bits: u32,
}

/// The bits of zero.
pub const ZERO_BITS: u32 = 0;

/// The bits of one.
pub const ONE_BITS: u32 = 0x3f80_0000;

/// The bit that the numbers below zero have.
pub const SIGN_BIT: u32 = 0x8000_0000;

/// A piece of a text-showing array.
#[derive(Debug)]
pub enum TextElement {
    String(Vec<u8>),
    Offset(Scalar),
}

/// An operator of a content stream with its operands.
#[derive(Debug)]
#[allow(inconsistent_fields)]
pub enum Operator {
    SaveState,
    RestoreState,
    Cm { a: Scalar, b: Scalar, c: Scalar, d: Scalar, e: Scalar, f: Scalar },
    SetFillRgb { r: Scalar, g: Scalar, b: Scalar },
    SetStrokeRgb { r: Scalar, g: Scalar, b: Scalar },
    SetFillGray { gray: Scalar },
    SetStrokeGray { gray: Scalar },
    SetFillCmyk { c: Scalar, m: Scalar, y: Scalar, k: Scalar },
    SetStrokeCmyk { c: Scalar, m: Scalar, y: Scalar, k: Scalar },
    SetFillColorSpace { name: String },
    SetStrokeColorSpace { name: String },
    SetFillColor { components: Vec<Scalar> },
    SetStrokeColor { components: Vec<Scalar> },
    SetFillColorN { components: Vec<Scalar>, name: Option<String> },
    SetStrokeColorN { components: Vec<Scalar>, name: Option<String> },
    SetLineWidth { width: Scalar },
    SetLineCap { cap_style: u8 },
    SetLineJoin { join_style: u8 },
    SetMiterLimit { limit: Scalar },
    SetDash { array: Vec<Scalar>, phase: Scalar },
    MoveTo { x: Scalar, y: Scalar },
    LineTo { x: Scalar, y: Scalar },
    CurveTo { x1: Scalar, y1: Scalar, x2: Scalar, y2: Scalar, x3: Scalar, y3: Scalar },
    CurveToV { x2: Scalar, y2: Scalar, x3: Scalar, y3: Scalar },
    CurveToY { x1: Scalar, y1: Scalar, x3: Scalar, y3: Scalar },
    Rectangle { x: Scalar, y: Scalar, width: Scalar, height: Scalar },
    ClosePath,
    Stroke,
    Fill,
    FillEvenOdd,
    FillStroke,
    CloseFillStroke,
    FillStrokeEvenOdd,
    CloseFillStrokeEvenOdd,
    EndPath,
    ClipNonZero,
    ClipEvenOdd,
    BeginText,
    EndText,
    Tc { char_space: Scalar },
    Tw { word_space: Scalar },
    Tz { scale: Scalar },
    TL { leading: Scalar },
    Ts { rise: Scalar },
    Tr { render: u8 },
    Tf { font: String, size: Scalar },
    Td { tx: Scalar, ty: Scalar },
    TD { tx: Scalar, ty: Scalar },
    Tm { a: Scalar, b: Scalar, c: Scalar, d: Scalar, e: Scalar, f: Scalar },
    TStar,
    Tj { text: Vec<u8> },
    TJ { array: Vec<TextElement> },
    Quote { text: Vec<u8> },
    DoubleQuote { word_space: Scalar, char_space: Scalar, text: Vec<u8> },
    SetExtGState { dict_name: String },
    Do { name: String },
    PaintShading { name: String },
    BeginMarkedContentDict { tag: String, properties: Object },
    MarkedContentPointDict { tag: String, properties: Object },
    /// An image that stands in the content itself, with the name of its colour space.
    InlineImage { color_space: Option<String> },
    /// Any operator that neither a subset nor a plate depends on.
    Other,
}

/// What became of a content stream when it was read.
#[derive(Debug)]
pub enum Content {
    /// Its data could not be decoded.
    Undecodable,
    /// Its decoded data is no sequence of operators.
    Unparsable,
    /// Its operators, in order.
    Operators(Vec<Operator>),
}

impl Content {
    /// The operators; none where the stream could not be read.
    pub open spec fn operators(&self) -> Seq<Operator> {
        match self {
            Content::Operators(ops) => ops@,
            _ => Seq::empty(),
        }
    }
}

/// A page of a source document.
#[derive(Debug)]
pub struct SourcePage {
    /// The page object, with the attributes that it inherits.
    pub object: Object,
    /// The content of the page: its content streams put together.
    pub content: Content,
    /// The resource dictionary in force on the page.
    pub resources: Object,
    /// The names of the spot inks that the resources declare, in order.
    pub inks: Vec<String>,
}

/// Why a document could not be built or a plate not be rendered.
#[derive(Debug)]
pub enum Error {
    InvalidPdf(String),
    PageNotFound(usize),
    ObjectNotFound(usize),
    UndecodableStream,
    UnparsableContent,
}

/// The mathematical value of an error.
pub enum Failure {
    InvalidPdf(Seq<char>),
    PageNotFound(nat),
    ObjectNotFound(nat),
    UndecodableStream,
    UnparsableContent,
}

impl View for Error {
    type V = Failure;

    open spec fn view(&self) -> Failure {
        match self {
            Error::InvalidPdf(message) => Failure::InvalidPdf(message@),
            Error::PageNotFound(page) => Failure::PageNotFound(*page as nat),
            Error::ObjectNotFound(id) => Failure::ObjectNotFound(*id as nat),
            Error::UndecodableStream => Failure::UndecodableStream,
            Error::UnparsableContent => Failure::UnparsableContent,
        }
    }
}

/// A parsed document.
#[derive(Debug)]
pub struct PdfDocument {
    objects: HashMap<usize, Object>,
    trailer: Object,
    pages: Vec<SourcePage>,
    contents: HashMap<usize, Content>,
    direct: Vec<(Object, usize)>,
}

/// The number that was given last to the stream `o`.
spec fn last_number(direct: Seq<(Object, usize)>, o: Obj) -> Option<usize>
    decreases direct.len(),
{
    if direct.len() == 0 {
        None
    } else if direct.last().0@ == o {
        Some(direct.last().1)
    } else {
        last_number(direct.drop_last(), o)
    }
}

/// The number of a stream, which its content goes by: that of the object which `o` points at, or that
/// which was given to a stream that stands in another object.
pub open spec fn stream_number(doc: PdfDocument, o: Obj) -> Option<nat> {
    match o {
        Obj::Reference(id, _) => Some(id),
        _ => match doc.given_number(o) {
            Some(n) => if doc.lookup(n) is Some {
                Some(n)
            } else {
                None
            },
            None => None,
        },
    }
}

/// `o`, or the object that it points at.
pub open spec fn resolve(doc: PdfDocument, o: Obj) -> Option<Obj> {
    match o {
        Obj::Reference(id, _) => doc.lookup(id),
        _ => Some(o),
    }
}

impl PdfDocument {
    /// The object of number `id`.
    pub closed spec fn lookup(&self, id: nat) -> Option<Obj> {
        if id <= usize::MAX && self.objects@.contains_key(id as usize) {
            Some(self.objects@[id as usize]@)
        } else {
            None
        }
    }

    /// The numbers of the objects.
    pub closed spec fn ids(&self) -> Set<usize> {
        self.objects@.dom()
    }

    /// The trailer dictionary.
    pub closed spec fn root(&self) -> Obj {
        self.trailer@
    }

    /// The pages, in order.
    pub closed spec fn page_seq(&self) -> Seq<SourcePage> {
        self.pages@
    }

    /// The content of the stream of number `id`.
    pub closed spec fn content_of(&self, id: nat) -> Content {
        if id <= usize::MAX && self.contents@.contains_key(id as usize) {
            self.contents@[id as usize]
        } else {
            Content::Undecodable
        }
    }

    /// The number that was given to a stream which stands in another object.
    pub closed spec fn given_number(&self, o: Obj) -> Option<nat> {
        match last_number(self.direct@, o) {
            Some(n) => Some(n as nat),
            None => None,
        }
    }

    /// There are finitely many objects, and each has its number.
    pub proof fn ids_finite(&self)
        ensures
            self.ids().finite(),
            forall|id: nat| #[trigger]
                self.lookup(id) is Some <==> id <= usize::MAX && self.ids().contains(id as usize),
    {
    }

    /// A document with nothing in it but a trailer.
    pub fn new(trailer: Object) -> (d: Self)
        ensures
            d.root() == trailer@,
            d.page_seq() == Seq::<SourcePage>::empty(),
            forall|id: nat| #[trigger] d.lookup(id) is None,
            forall|id: nat| #[trigger] d.content_of(id) == Content::Undecodable,
            forall|o: Obj| #[trigger] d.given_number(o) is None,
    {
        PdfDocument {
            objects: HashMap::new(),
            trailer,
            pages: Vec::new(),
            contents: HashMap::new(),
            direct: Vec::new(),
        }
    }

    /// Give the document the object of number `id`.
    pub fn add_object(&mut self, id: usize, object: Object)
        ensures
            final(self).root() == old(self).root(),
            final(self).page_seq() == old(self).page_seq(),
            forall|k: nat| #[trigger]
                final(self).lookup(k) == (if k == id {
                    Some(object@)
                } else {
                    old(self).lookup(k)
                }),
            forall|k: nat| #[trigger] final(self).content_of(k) == old(self).content_of(k),
            forall|o: Obj| #[trigger] final(self).given_number(o) == old(self).given_number(o),
    {
        self.objects.insert(id, object);
    }

    /// Give the document the content of the stream of number `id`.
    pub fn add_content(&mut self, id: usize, content: Content)
        ensures
            final(self).root() == old(self).root(),
            final(self).page_seq() == old(self).page_seq(),
            forall|k: nat| #[trigger] final(self).lookup(k) == old(self).lookup(k),
            forall|k: nat| #[trigger]
                final(self).content_of(k) == (if k == id {
                    content
                } else {
                    old(self).content_of(k)
                }),
            forall|o: Obj| #[trigger] final(self).given_number(o) == old(self).given_number(o),
    {
        self.contents.insert(id, content);
    }

    /// Give a stream that stands in another object a number of its own, which no object has, and its
    /// content.
    pub fn add_direct_stream(&mut self, id: usize, stream: Object, content: Content)
        ensures
            final(self).root() == old(self).root(),
            final(self).page_seq() == old(self).page_seq(),
            forall|k: nat| #[trigger]
                final(self).lookup(k) == (if k == id {
                    Some(stream@)
                } else {
                    old(self).lookup(k)
                }),
            forall|k: nat| #[trigger]
                final(self).content_of(k) == (if k == id {
                    content
                } else {
                    old(self).content_of(k)
                }),
            forall|o: Obj| #[trigger]
                final(self).given_number(o) == (if o == stream@ {
                    Some(id as nat)
                } else {
                    old(self).given_number(o)
                }),
    {
        let copy = stream.clone();
        self.objects.insert(id, copy);
        self.contents.insert(id, content);
        let ghost before = self.direct@;
        self.direct.push((stream, id));
        assert(self.direct@.drop_last() =~= before);
        assert(self.direct@.last() == (stream, id));
    }

    /// Give the document a further page, after those it has.
    pub fn add_page(&mut self, page: SourcePage)
        ensures
            final(self).root() == old(self).root(),
            final(self).page_seq() == old(self).page_seq().push(page),
            forall|k: nat| #[trigger] final(self).lookup(k) == old(self).lookup(k),
            forall|k: nat| #[trigger] final(self).content_of(k) == old(self).content_of(k),
            forall|o: Obj| #[trigger] final(self).given_number(o) == old(self).given_number(o),
    {
        self.pages.push(page);
    }

    pub fn trailer(&self) -> (o: &Object)
        ensures
            o@ == self.root(),
    {
        &self.trailer
    }

    pub fn page_count(&self) -> (n: usize)
        ensures
            n == self.page_seq().len(),
    {
        self.pages.len()
    }

    /// The object that `r` points at.
    pub fn load_object(&self, r: ObjectRef) -> (o: Option<&Object>)
        ensures
            match o {
                Some(o) => self.lookup(r.id as nat) == Some(o@),
                None => self.lookup(r.id as nat) is None,
            },
    {
        self.objects.get(&r.id)
    }

    /// `o`, or the object that it points at.
    pub fn resolve_object<'b>(&'b self, o: &'b Object) -> (r: Result<&'b Object, Error>)
        ensures
            match r {
                Ok(x) => resolve(*self, o@) == Some(x@),
                Err(e) => resolve(*self, o@) is None && e@ == Failure::ObjectNotFound(o@->Reference_0),
            },
    {
        match o {
            Object::Reference(r) => match self.load_object(*r) {
                Some(x) => Ok(x),
                None => Err(Error::ObjectNotFound(r.id)),
            },
            _ => Ok(o),
        }
    }

    /// The page at position `index`.
    pub fn get_page(&self, index: usize) -> (p: Result<&SourcePage, Error>)
        ensures
            match p {
                Ok(p) => index < self.page_seq().len() && *p == self.page_seq()[index as int],
                Err(e) => index >= self.page_seq().len() && e@ == Failure::PageNotFound(index as nat),
            },
    {
        if index < self.pages.len() {
            Ok(&self.pages[index])
        } else {
            Err(Error::PageNotFound(index))
        }
    }

    /// The number of a stream, which its content goes by.
    pub fn number_of_stream(&self, o: &Object) -> (r: Option<usize>)
        ensures
            match r {
                Some(n) => stream_number(*self, o@) == Some(n as nat),
                None => stream_number(*self, o@) is None,
            },
    {
        if let Object::Reference(r) = o {
            return Some(r.id);
        }
        let mut i: usize = self.direct.len();
        assert(self.direct@.take(i as int) =~= self.direct@);
        while i > 0
            invariant
                i <= self.direct@.len(),
                !(o@ is Reference),
                last_number(self.direct@, o@) == last_number(self.direct@.take(i as int), o@),
            decreases i,
        {
            i -= 1;
            proof {
                let t = self.direct@.take(i + 1);
                assert(t.drop_last() =~= self.direct@.take(i as int));
                assert(t.last() == self.direct@[i as int]);
            }
            if same_object(&self.direct[i].0, o) {
                let n = self.direct[i].1;
                if self.objects.contains_key(&n) {
                    return Some(n);
                }
                return None;
            }
        }
        None
    }

    /// The content of the stream that `r` points at.
    pub fn load_content(&self, r: ObjectRef) -> (c: Option<&Content>)
        ensures
            match c {
                Some(c) => self.content_of(r.id as nat) == *c,
                None => self.content_of(r.id as nat) == Content::Undecodable,
            },
    {
        self.contents.get(&r.id)
    }
}

/// How many objects of a document are not among `seen`.
pub open spec fn unseen(doc: PdfDocument, seen: Set<usize>) -> nat {
    doc.ids().difference(seen).len()
}

/// Seeing an object that was not seen before leaves fewer of them.
pub proof fn unseen_decreases(doc: PdfDocument, seen: Set<usize>, id: usize)
    requires
        doc.lookup(id as nat) is Some,
        !seen.contains(id),
    ensures
        unseen(doc, seen.insert(id)) < unseen(doc, seen),
{
    doc.ids_finite();
    assert(doc.ids().difference(seen.insert(id)) =~= doc.ids().difference(seen).remove(id));
}

} // verus!
