//! What a colour space means for the separation into inks.
//!
//! An ICC profile is not read. A space based on one counts as CMYK, RGB or gray by its number of
//! components, and as CMYK where that number is not given.

use vstd::prelude::*;
use crate::document::{resolve, Error, Failure, PdfDocument};
use crate::object::{
    array_view, dict_get, dict_insert, obj_dict, obj_integer, obj_name, views, Dict, Entries, Obj, Object,
};
use crate::text::str_eq;

verus! {

/// What a colour space means.
pub enum Space {
    Cmyk,
    Rgb,
    Gray,
    Separation(Seq<char>),
    DeviceN(Seq<Seq<char>>),
    IccCmyk,
    IccRgb,
    IccGray,
    Unknown,
}

/// What a colour space means.
#[derive(Debug)]
pub enum ResolvedSpace {
    Cmyk,
    Rgb,
    Gray,
    Separation(String),
    DeviceN(Vec<String>),
    IccCmyk,
    IccRgb,
    IccGray,
    Unknown,
}

/// The texts of names.
pub open spec fn name_texts(s: Seq<String>) -> Seq<Seq<char>> {
    s.map_values(|t: String| t@)
}

impl View for ResolvedSpace {
    type V = Space;

    open spec fn view(&self) -> Space {
        match self {
            ResolvedSpace::Cmyk => Space::Cmyk,
            ResolvedSpace::Rgb => Space::Rgb,
            ResolvedSpace::Gray => Space::Gray,
            ResolvedSpace::Separation(ink) => Space::Separation(ink@),
            ResolvedSpace::DeviceN(inks) => Space::DeviceN(name_texts(inks@)),
            ResolvedSpace::IccCmyk => Space::IccCmyk,
            ResolvedSpace::IccRgb => Space::IccRgb,
            ResolvedSpace::IccGray => Space::IccGray,
            ResolvedSpace::Unknown => Space::Unknown,
        }
    }
}

/// The device space that a name stands for.
pub open spec fn device_space(name: Seq<char>) -> Option<Space> {
    if name == "DeviceCMYK"@ || name == "CMYK"@ {
        Some(Space::Cmyk)
    } else if name == "DeviceRGB"@ || name == "RGB"@ {
        Some(Space::Rgb)
    } else if name == "DeviceGray"@ || name == "G"@ {
        Some(Space::Gray)
    } else {
        None
    }
}

/// The name under which resources replace a device space.
pub open spec fn default_key(device: Space) -> Seq<char> {
    match device {
        Space::Cmyk => "DefaultCMYK"@,
        Space::Rgb => "DefaultRGB"@,
        _ => "DefaultGray"@,
    }
}

/// What the name of a colour space means. A device space may be replaced by the resources. At most
/// `steps` names that stand for other names are followed.
pub open spec fn resolve_space(doc: PdfDocument, name: Seq<char>, spaces: Entries, steps: nat) -> Space
    decreases steps, 1nat,
{
    match device_space(name) {
        Some(device) => match dict_get(spaces, default_key(device)) {
            Some(replacement) => classify(doc, replacement, spaces, steps),
            None => device,
        },
        None => match dict_get(spaces, name) {
            Some(o) => classify(doc, o, spaces, steps),
            None => Space::Unknown,
        },
    }
}

/// What a colour-space object means.
pub open spec fn classify(doc: PdfDocument, o: Obj, spaces: Entries, steps: nat) -> Space
    decreases steps, 0nat,
{
    match o {
        Obj::Name(n) => match device_space(n) {
            Some(device) => device,
            None => if steps == 0 {
                Space::Unknown
            } else {
                resolve_space(doc, n, spaces, (steps - 1) as nat)
            },
        },
        Obj::Array(a) => classify_array(doc, a),
        _ => Space::Unknown,
    }
}

/// The names among `items`.
pub open spec fn names_in(items: Seq<Obj>) -> Seq<Seq<char>>
    decreases items.len(),
{
    if items.len() == 0 {
        Seq::empty()
    } else {
        match obj_name(items.last()) {
            Some(n) => names_in(items.drop_last()).push(n),
            None => names_in(items.drop_last()),
        }
    }
}

/// What a colour space given as an array means: its first item is its kind.
pub open spec fn classify_array(doc: PdfDocument, a: Seq<Obj>) -> Space {
    if a.len() == 0 {
        Space::Unknown
    } else {
        match obj_name(a[0]) {
            None => Space::Unknown,
            Some(kind) => match device_space(kind) {
                Some(device) => device,
                None => if kind == "Separation"@ {
                    Space::Separation(
                        if a.len() > 1 && a[1] is Name {
                            a[1]->Name_0
                        } else {
                            Seq::empty()
                        },
                    )
                } else if kind == "DeviceN"@ {
                    if a.len() > 1 && a[1] is Array {
                        Space::DeviceN(names_in(a[1]->Array_0))
                    } else {
                        Space::Unknown
                    }
                } else if kind == "ICCBased"@ {
                    match profile_components(doc, a) {
                        None => Space::IccCmyk,
                        Some(n) => if n == 4 {
                            Space::IccCmyk
                        } else if n == 3 {
                            Space::IccRgb
                        } else if n == 1 {
                            Space::IccGray
                        } else {
                            Space::Unknown
                        },
                    }
                } else {
                    Space::Unknown
                },
            },
        }
    }
}

/// The number of components that the profile of an ICC-based space states.
pub open spec fn profile_components(doc: PdfDocument, a: Seq<Obj>) -> Option<i64> {
    if a.len() > 1 {
        match resolve(doc, a[1]) {
            Some(Obj::Stream(d, _)) => match dict_get(d, "N"@) {
                Some(n) => obj_integer(n),
                None => None,
            },
            _ => None,
        }
    } else {
        None
    }
}

/// The entries of the first `k` keys of a dictionary, each value resolved; without those that
/// cannot be.
pub open spec fn resolved_entries(doc: PdfDocument, d: Entries, k: nat) -> Entries
    decreases k,
{
    if k == 0 {
        Seq::empty()
    } else {
        let before = resolved_entries(doc, d, (k - 1) as nat);
        match resolve(doc, d[k - 1].1) {
            Some(o) => dict_insert(before, d[k - 1].0, o),
            None => before,
        }
    }
}

/// The colour spaces of a resource dictionary, by name.
pub open spec fn color_spaces(doc: PdfDocument, resources: Obj) -> Result<Entries, Failure> {
    match resources {
        Obj::Dictionary(d) => match dict_get(d, "ColorSpace"@) {
            None => Ok(Seq::empty()),
            Some(o) => match resolve(doc, o) {
                None => Err(Failure::ObjectNotFound(o->Reference_0)),
                Some(cs) => match obj_dict(cs) {
                    Some(cd) => Ok(resolved_entries(doc, cd, cd.len())),
                    None => Ok(Seq::empty()),
                },
            },
        },
        _ => Ok(Seq::empty()),
    }
}

/// `a` with the first `k` entries of `b`, which take precedence.
pub open spec fn overlay(a: Entries, b: Entries, k: nat) -> Entries
    decreases k,
{
    if k == 0 {
        a
    } else {
        dict_insert(overlay(a, b, (k - 1) as nat), b[k - 1].0, b[k - 1].1)
    }
}

fn device_space_of(name: &str) -> (r: Option<ResolvedSpace>)
    ensures
        match r {
            Some(s) => device_space(name@) == Some(s@),
            None => device_space(name@) is None,
        },
{
    if str_eq(name, "DeviceCMYK") || str_eq(name, "CMYK") {
        Some(ResolvedSpace::Cmyk)
    } else if str_eq(name, "DeviceRGB") || str_eq(name, "RGB") {
        Some(ResolvedSpace::Rgb)
    } else if str_eq(name, "DeviceGray") || str_eq(name, "G") {
        Some(ResolvedSpace::Gray)
    } else {
        None
    }
}

/// What the name of a colour space means.
pub fn resolve_color_space(space_name: &str, spaces: &Dict, doc: &PdfDocument) -> (r: ResolvedSpace)
    ensures
        r@ == resolve_space(*doc, space_name@, spaces@, spaces@.len()),
{
    resolve_within(space_name, spaces, doc, spaces.len())
}

fn resolve_within(space_name: &str, spaces: &Dict, doc: &PdfDocument, steps: usize) -> (r: ResolvedSpace)
    ensures
        r@ == resolve_space(*doc, space_name@, spaces@, steps as nat),
    decreases steps, 1nat,
{
    match device_space_of(space_name) {
        Some(device) => {
            let key = match device {
                ResolvedSpace::Cmyk => "DefaultCMYK",
                ResolvedSpace::Rgb => "DefaultRGB",
                _ => "DefaultGray",
            };
            match spaces.get(key) {
                Some(replacement) => classify_resolved(replacement, spaces, doc, steps),
                None => device,
            }
        },
        None => match spaces.get(space_name) {
            Some(o) => classify_resolved(o, spaces, doc, steps),
            None => ResolvedSpace::Unknown,
        },
    }
}

/// What a colour-space object means.
fn classify_resolved(cs_obj: &Object, spaces: &Dict, doc: &PdfDocument, steps: usize) -> (r: ResolvedSpace)
    ensures
        r@ == classify(*doc, cs_obj@, spaces@, steps as nat),
    decreases steps, 0nat,
{
    broadcast use array_view;

    match cs_obj {
        Object::Name(n) => match device_space_of(n.as_str()) {
            Some(device) => device,
            None => {
                if steps == 0 {
                    ResolvedSpace::Unknown
                } else {
                    resolve_within(n.as_str(), spaces, doc, steps - 1)
                }
            },
        },
        Object::Array(a) => classify_items(a, doc),
        _ => ResolvedSpace::Unknown,
    }
}

fn classify_items(a: &Vec<Object>, doc: &PdfDocument) -> (r: ResolvedSpace)
    ensures
        r@ == classify_array(*doc, views(a@)),
{
    broadcast use array_view;

    let ghost items = views(a@);
    assert(items.len() == a@.len());
    if a.len() == 0 {
        return ResolvedSpace::Unknown;
    }
    assert(items[0] == a@[0]@);
    let kind = match a[0].as_name() {
        Some(n) => n,
        None => return ResolvedSpace::Unknown,
    };
    if let Some(device) = device_space_of(kind) {
        return device;
    }
    if a.len() > 1 {
        assert(items[1] == a@[1]@);
    }
    if str_eq(kind, "Separation") {
        if a.len() > 1 {
            if let Object::Name(ink) = &a[1] {
                return ResolvedSpace::Separation(ink.clone());
            }
        }
        let none = "";
        proof {
            reveal_strlit("");
        }
        assert(none@ =~= Seq::empty());
        ResolvedSpace::Separation(none.to_string())
    } else if str_eq(kind, "DeviceN") {
        if a.len() > 1 {
            if let Object::Array(inks) = &a[1] {
                return ResolvedSpace::DeviceN(ink_names(inks));
            }
        }
        ResolvedSpace::Unknown
    } else if str_eq(kind, "ICCBased") {
        match components_of_profile(a, doc) {
            None => ResolvedSpace::IccCmyk,
            Some(n) => {
                if n == 4 {
                    ResolvedSpace::IccCmyk
                } else if n == 3 {
                    ResolvedSpace::IccRgb
                } else if n == 1 {
                    ResolvedSpace::IccGray
                } else {
                    ResolvedSpace::Unknown
                }
            },
        }
    } else {
        ResolvedSpace::Unknown
    }
}

fn components_of_profile(a: &Vec<Object>, doc: &PdfDocument) -> (r: Option<i64>)
    ensures
        r == profile_components(*doc, views(a@)),
{
    if a.len() > 1 {
        assert(views(a@)[1] == a@[1]@);
        match doc.resolve_object(&a[1]) {
            Ok(Object::Stream { dict, .. }) => match dict.get("N") {
                Some(n) => n.as_integer(),
                None => None,
            },
            _ => None,
        }
    } else {
        None
    }
}

fn ink_names(items: &Vec<Object>) -> (r: Vec<String>)
    ensures
        name_texts(r@) == names_in(views(items@)),
{
    let mut out: Vec<String> = Vec::new();
    let ghost all = views(items@);
    let mut i: usize = 0;
    assert(all.take(0) =~= Seq::empty());
    assert(name_texts(out@) =~= Seq::empty());
    while i < items.len()
        invariant
            i <= items@.len(),
            all == views(items@),
            name_texts(out@) == names_in(all.take(i as int)),
        decreases items@.len() - i,
    {
        proof {
            let t = all.take(i + 1);
            assert(t.drop_last() =~= all.take(i as int));
            assert(t.last() == items@[i as int]@);
        }
        if let Some(n) = items[i].as_name() {
            let ghost before = name_texts(out@);
            let text = n.to_string();
            out.push(text);
            assert(name_texts(out@) =~= before.push(text@));
        }
        i += 1;
    }
    assert(all.take(i as int) =~= all);
    out
}

/// The colour spaces of a resource dictionary, by name.
pub fn load_color_spaces(doc: &PdfDocument, resources: &Object) -> (r: Result<Dict, Error>)
    ensures
        match r {
            Ok(d) => color_spaces(*doc, resources@) == Ok::<Entries, Failure>(d@),
            Err(e) => color_spaces(*doc, resources@) == Err::<Entries, Failure>(e@),
        },
{
    let res_dict = match resources {
        Object::Dictionary(d) => d,
        _ => return Ok(Dict::new()),
    };
    let cs_obj = match res_dict.get("ColorSpace") {
        Some(o) => o,
        None => return Ok(Dict::new()),
    };
    let resolved = match doc.resolve_object(cs_obj) {
        Ok(o) => o,
        Err(e) => return Err(e),
    };
    let cs_dict = match resolved.as_dict() {
        Some(d) => d,
        None => return Ok(Dict::new()),
    };
    let n = cs_dict.len();
    let mut out = Dict::new();
    let mut i: usize = 0;
    while i < n
        invariant
            i <= n == cs_dict@.len(),
            out@ == resolved_entries(*doc, cs_dict@, i as nat),
        decreases n - i,
    {
        if let Ok(o) = doc.resolve_object(cs_dict.value_at(i)) {
            out.insert(cs_dict.key_at(i).as_str(), o.clone());
        }
        i += 1;
    }
    Ok(out)
}

/// The colour spaces of a form over those that hold where it is drawn.
pub fn merge_color_spaces(outer: &Dict, inner: &Dict) -> (r: Dict)
    ensures
        r@ == overlay(outer@, inner@, inner@.len()),
{
    let n = inner.len();
    let mut out = outer.clone();
    let mut i: usize = 0;
    while i < n
        invariant
            i <= n == inner@.len(),
            out@ == overlay(outer@, inner@, i as nat),
        decreases n - i,
    {
        out.insert(inner.key_at(i).as_str(), inner.value_at(i).clone());
        i += 1;
    }
    out
}

} // verus!
