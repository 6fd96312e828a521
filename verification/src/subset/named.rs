//! What the content of a page names is there for it to use.

use vstd::prelude::*;
use crate::document::{resolve, Content, Operator, PdfDocument};
use crate::object::{
    dict_get, dict_get_insert, dict_get_some, dict_has, dict_insert, new_ref, obj_dict, Entries, Obj, Object,
};
use super::again::{form_remembers, resource_remembers, trim_entries_remember};
use super::copy::carry;
use super::defaults::{content_need, op_default};
use super::direct::direct;
use super::faithful::{extends, ids_placed, remap_copies, same_copy, same_copy_extends};
use super::filed::copied_name;
use super::kept::{carried, page_keys_apart};
use super::pages::{geometry_keys, page_body};
use super::resources::{
    among, categories, form_ref, import_form_trimmed, import_resource, keys_differ, no_key_before, op_use, sub_dict,
    trim_categories, trim_entries, trim_entries_exact, trimmed_resources, Category, Used,
};
use super::sound::{resources_advance, trim_categories_advances, trim_entries_advances};
use super::unsigned::{is_range, signs};
use super::usage::all_use;
use super::{Env, State};

verus! {

/// The dictionary that stands under a key, or that is referred to there.
pub open spec fn entries_under(doc: PdfDocument, d: Entries, key: Seq<char>) -> Option<Entries> {
    match dict_get(d, key) {
        Some(Obj::Dictionary(e)) => Some(e),
        Some(Obj::Reference(id, _)) => match doc.lookup(id) {
            Some(Obj::Dictionary(e)) => Some(e),
            _ => None,
        },
        _ => None,
    }
}

/// Does no key stand twice in the dictionary?
pub open spec fn keys_once(d: Entries) -> bool {
    forall|i: int, j: int| 0 <= i < j < d.len() ==> (#[trigger] d[i]).0 != (#[trigger] d[j]).0
}

/// What the resources of a page have under a name of a category.
pub open spec fn resource_in(doc: PdfDocument, page: Entries, key: Seq<char>, name: Seq<char>) -> Option<Obj> {
    match entries_under(doc, page, "Resources"@) {
        Some(res) => match entries_under(doc, res, key) {
            Some(sub) => if keys_once(sub) {
                dict_get(sub, name)
            } else {
                None
            },
            None => None,
        },
        None => None,
    }
}

/// The number of the form XObject that a resource refers to.
pub open spec fn form_number(doc: PdfDocument, v: Obj) -> Option<nat> {
    match v {
        Obj::Reference(id, _) => match doc.lookup(id) {
            Some(Obj::Stream(d, _)) => if dict_get(d, "Subtype"@) == Some(Obj::Name("Form"@)) {
                Some(id)
            } else {
                None
            },
            Some(Obj::Dictionary(d)) => if dict_get(d, "Subtype"@) == Some(Obj::Name("Form"@)) {
                Some(id)
            } else {
                None
            },
            _ => None,
        },
        _ => None,
    }
}

/// Is `c` the copy of the resource `v`? A form whose own resources are trimmed has a copy of its own.
pub open spec fn resource_led(env: Env, st: State, src: nat, key: Seq<char>, v: Obj, c: Obj) -> bool {
    let form = form_number(env.docs[src as int], v);
    if key == "XObject"@ && env.opts.trim_forms && form is Some {
        st.forms.contains_key((src, form->0)) && c == new_ref(st.forms[(src, form->0)])
    } else {
        same_copy(env, st.ids, src, v, c, 1)
    }
}

/// Where the source page has a resource of that name, has the page `d` it too, leading to its copy?
pub open spec fn name_led(
    env: Env,
    st: State,
    src: nat,
    page: Entries,
    d: Entries,
    key: Seq<char>,
    name: Seq<char>,
) -> bool {
    resource_in(env.docs[src as int], page, key, name) matches Some(v) ==> name_leads(env, st, src, d, key, name, v)
}

/// Have the resources of the page `d` the name, leading to the copy of `v`?
pub open spec fn name_leads(
    env: Env,
    st: State,
    src: nat,
    d: Entries,
    key: Seq<char>,
    name: Seq<char>,
    v: Obj,
) -> bool {
    match dict_get(d, "Resources"@) {
        Some(Obj::Dictionary(out)) => match dict_get(out, key) {
            Some(Obj::Dictionary(kept)) => match dict_get(kept, name) {
                Some(c) => resource_led(env, st, src, key, v, c),
                None => false,
            },
            _ => false,
        },
        _ => false,
    }
}

/// Has the page `d` each resource that the operator names or may paint with?
pub open spec fn operator_led(env: Env, st: State, src: nat, page: Entries, d: Entries, op: Operator) -> bool {
    match op {
        Operator::Tf { font, .. } => name_led(env, st, src, page, d, "Font"@, font@),
        Operator::Do { name } => {
            &&& name_led(env, st, src, page, d, "XObject"@, name@)
            &&& name_led(env, st, src, page, d, "ColorSpace"@, "DefaultGray"@)
            &&& name_led(env, st, src, page, d, "ColorSpace"@, "DefaultRGB"@)
            &&& name_led(env, st, src, page, d, "ColorSpace"@, "DefaultCMYK"@)
        },
        Operator::SetExtGState { dict_name } => name_led(env, st, src, page, d, "ExtGState"@, dict_name@),
        Operator::SetFillColorSpace { name } => {
            &&& name_led(env, st, src, page, d, "ColorSpace"@, name@)
            &&& name@ == "DeviceGray"@ || name@ == "G"@ ==> name_led(
                env,
                st,
                src,
                page,
                d,
                "ColorSpace"@,
                "DefaultGray"@,
            )
            &&& name@ == "DeviceRGB"@ || name@ == "RGB"@ ==> name_led(
                env,
                st,
                src,
                page,
                d,
                "ColorSpace"@,
                "DefaultRGB"@,
            )
            &&& name@ == "DeviceCMYK"@ || name@ == "CMYK"@ ==> name_led(
                env,
                st,
                src,
                page,
                d,
                "ColorSpace"@,
                "DefaultCMYK"@,
            )
        },
        Operator::SetStrokeColorSpace { name } => {
            &&& name_led(env, st, src, page, d, "ColorSpace"@, name@)
            &&& name@ == "DeviceGray"@ || name@ == "G"@ ==> name_led(
                env,
                st,
                src,
                page,
                d,
                "ColorSpace"@,
                "DefaultGray"@,
            )
            &&& name@ == "DeviceRGB"@ || name@ == "RGB"@ ==> name_led(
                env,
                st,
                src,
                page,
                d,
                "ColorSpace"@,
                "DefaultRGB"@,
            )
            &&& name@ == "DeviceCMYK"@ || name@ == "CMYK"@ ==> name_led(
                env,
                st,
                src,
                page,
                d,
                "ColorSpace"@,
                "DefaultCMYK"@,
            )
        },
        Operator::SetFillColorN { name: Some(name), .. } => {
            &&& name_led(env, st, src, page, d, "Pattern"@, name@)
            &&& name_led(env, st, src, page, d, "ColorSpace"@, "DefaultGray"@)
            &&& name_led(env, st, src, page, d, "ColorSpace"@, "DefaultRGB"@)
            &&& name_led(env, st, src, page, d, "ColorSpace"@, "DefaultCMYK"@)
        },
        Operator::SetStrokeColorN { name: Some(name), .. } => {
            &&& name_led(env, st, src, page, d, "Pattern"@, name@)
            &&& name_led(env, st, src, page, d, "ColorSpace"@, "DefaultGray"@)
            &&& name_led(env, st, src, page, d, "ColorSpace"@, "DefaultRGB"@)
            &&& name_led(env, st, src, page, d, "ColorSpace"@, "DefaultCMYK"@)
        },
        Operator::PaintShading { name } => {
            &&& name_led(env, st, src, page, d, "Shading"@, name@)
            &&& name_led(env, st, src, page, d, "ColorSpace"@, "DefaultGray"@)
            &&& name_led(env, st, src, page, d, "ColorSpace"@, "DefaultRGB"@)
            &&& name_led(env, st, src, page, d, "ColorSpace"@, "DefaultCMYK"@)
        },
        Operator::BeginMarkedContentDict { properties: Object::Name(n), .. } => name_led(
            env,
            st,
            src,
            page,
            d,
            "Properties"@,
            n@,
        ),
        Operator::MarkedContentPointDict { properties: Object::Name(n), .. } => name_led(
            env,
            st,
            src,
            page,
            d,
            "Properties"@,
            n@,
        ),
        Operator::InlineImage { color_space } => {
            &&& color_space matches Some(name) ==> name_led(env, st, src, page, d, "ColorSpace"@, name@)
            &&& name_led(env, st, src, page, d, "ColorSpace"@, "DefaultGray"@)
            &&& name_led(env, st, src, page, d, "ColorSpace"@, "DefaultRGB"@)
            &&& name_led(env, st, src, page, d, "ColorSpace"@, "DefaultCMYK"@)
        },
        Operator::SetFillGray { .. } => name_led(env, st, src, page, d, "ColorSpace"@, "DefaultGray"@),
        Operator::SetStrokeGray { .. } => name_led(env, st, src, page, d, "ColorSpace"@, "DefaultGray"@),
        Operator::Stroke => name_led(env, st, src, page, d, "ColorSpace"@, "DefaultGray"@),
        Operator::Fill => name_led(env, st, src, page, d, "ColorSpace"@, "DefaultGray"@),
        Operator::FillEvenOdd => name_led(env, st, src, page, d, "ColorSpace"@, "DefaultGray"@),
        Operator::FillStroke => name_led(env, st, src, page, d, "ColorSpace"@, "DefaultGray"@),
        Operator::CloseFillStroke => name_led(env, st, src, page, d, "ColorSpace"@, "DefaultGray"@),
        Operator::FillStrokeEvenOdd => name_led(env, st, src, page, d, "ColorSpace"@, "DefaultGray"@),
        Operator::CloseFillStrokeEvenOdd => name_led(env, st, src, page, d, "ColorSpace"@, "DefaultGray"@),
        Operator::Tj { .. } => name_led(env, st, src, page, d, "ColorSpace"@, "DefaultGray"@),
        Operator::TJ { .. } => name_led(env, st, src, page, d, "ColorSpace"@, "DefaultGray"@),
        Operator::Quote { .. } => name_led(env, st, src, page, d, "ColorSpace"@, "DefaultGray"@),
        Operator::DoubleQuote { .. } => name_led(env, st, src, page, d, "ColorSpace"@, "DefaultGray"@),
        Operator::SetFillRgb { .. } => name_led(env, st, src, page, d, "ColorSpace"@, "DefaultRGB"@),
        Operator::SetStrokeRgb { .. } => name_led(env, st, src, page, d, "ColorSpace"@, "DefaultRGB"@),
        Operator::SetFillCmyk { .. } => name_led(env, st, src, page, d, "ColorSpace"@, "DefaultCMYK"@),
        Operator::SetStrokeCmyk { .. } => name_led(env, st, src, page, d, "ColorSpace"@, "DefaultCMYK"@),
        _ => true,
    }
}

/// The resource leads to its copy for as long as more is copied.
pub proof fn led_stays(env: Env, a: State, b: State, src: nat, key: Seq<char>, v: Obj, c: Obj)
    requires
        resource_led(env, a, src, key, v, c),
        extends(a.ids, b.ids),
        extends(a.forms, b.forms),
    ensures
        resource_led(env, b, src, key, v, c),
{
    let form = form_number(env.docs[src as int], v);
    if !(key == "XObject"@ && env.opts.trim_forms && form is Some) {
        same_copy_extends(env, a.ids, b.ids, src, v, c, 1);
    }
}

proof fn imported_leads(env: Env, st: State, src: nat, v: Obj, category: Category)
    requires
        ids_placed(st),
    ensures
        ({
            let (s, c) = import_resource(env, st, src, v, category, 0);
            resource_led(env, s, src, category.spec_key(), v, c)
        }),
{
    let doc = env.docs[src as int];
    keys_differ(category, Category::XObject);
    assert(form_number(doc, v) == form_ref(doc, v));
    if category == Category::XObject && env.opts.trim_forms && form_ref(doc, v) is Some {
        let id = form_ref(doc, v)->0;
        resource_remembers(env, st, src, v, category, 0);
        trimmed_is_known(env, st, src, id);
    } else {
        remap_copies(env, st, src, v, 1);
    }
}

proof fn trimmed_is_known(env: Env, st: State, src: nat, id: nat)
    ensures
        ({
            let (s, n) = import_form_trimmed(env, st, src, id, 1);
            s.forms.contains_key((src, id)) && s.forms[(src, id)] == n
        }),
{
    form_remembers(env, st, src, id, 1);
}

/// What the last entry of a dictionary leaves to the others.
pub proof fn last_of(d: Entries, name: Seq<char>)
    requires
        d.len() > 0,
        keys_once(d),
    ensures
        keys_once(d.drop_last()),
        dict_get(d, name) == (if d.last().0 == name {
            Some(d.last().1)
        } else {
            dict_get(d.drop_last(), name)
        }),
    decreases d.len(),
{
    reveal_with_fuel(dict_get, 2);
    assert forall|i: int, j: int| 0 <= i < j < d.drop_last().len() implies (#[trigger] d.drop_last()[i]).0 != (
    #[trigger] d.drop_last()[j]).0 by {
        assert(d[i].0 != d[j].0);
    }
    if d.len() > 1 {
        let r = d.skip(1);
        assert(d[0].0 != d[d.len() - 1].0);
        assert forall|i: int, j: int| 0 <= i < j < r.len() implies (#[trigger] r[i]).0 != (#[trigger] r[j]).0 by {
            assert(d[i + 1].0 != d[j + 1].0);
        }
        last_of(r, name);
        assert(r.drop_last() =~= d.drop_last().skip(1));
        assert(d.drop_last()[0] == d[0]);
        assert(r.last() == d.last());
    }
}

proof fn entries_lead(env: Env, st: State, src: nat, sub: Entries, used: Used, category: Category, name: Seq<char>)
    requires
        ids_placed(st),
        keys_once(sub),
        used.contains((category, name)),
        dict_has(sub, name),
    ensures
        ({
            let (s, out) = trim_entries(env, st, src, sub, used, category, 0);
            &&& dict_has(out, name)
            &&& resource_led(env, s, src, category.spec_key(), dict_get(sub, name)->0, dict_get(out, name)->0)
        }),
    decreases sub.len(),
{
    last_of(sub, name);
    let front = sub.drop_last();
    let (s1, out) = trim_entries(env, st, src, front, used, category, 0);
    trim_entries_advances(env, st, src, front, used, category, 0);
    let key = sub.last().0;
    if used.contains((category, key)) {
        let v = sub.last().1;
        let (s2, o) = import_resource(env, s1, src, v, category, 0);
        dict_get_insert(out, key, o, name);
        imported_leads(env, s1, src, v, category);
        if key != name {
            entries_lead(env, st, src, front, used, category, name);
            resource_remembers(env, s1, src, v, category, 0);
            led_stays(env, s1, s2, src, category.spec_key(), dict_get(sub, name)->0, dict_get(out, name)->0);
        }
    } else {
        entries_lead(env, st, src, front, used, category, name);
    }
}

/// Do the resources `out` lead from a name of the category to the copy of what `res` has there?
pub open spec fn category_leads(
    env: Env,
    s: State,
    src: nat,
    out: Entries,
    category: Category,
    name: Seq<char>,
    v: Obj,
) -> bool {
    match dict_get(out, category.spec_key()) {
        Some(Obj::Dictionary(kept)) => match dict_get(kept, name) {
            Some(c) => resource_led(env, s, src, category.spec_key(), v, c),
            None => false,
        },
        _ => false,
    }
}

proof fn categories_lead(
    env: Env,
    st: State,
    src: nat,
    res: Entries,
    used: Used,
    n: nat,
    at: int,
    name: Seq<char>,
    sub: Entries,
)
    requires
        ids_placed(st),
        0 <= at < n <= categories().len(),
        sub_dict(env.docs[src as int], res, categories()[at].spec_key()) == Some(sub),
        keys_once(sub),
        used.contains((categories()[at], name)),
        dict_has(sub, name),
    ensures
        ({
            let (s, out) = trim_categories(env, st, src, res, used, 0, n);
            category_leads(env, s, src, out, categories()[at], name, dict_get(sub, name)->0)
        }),
    decreases n,
{
    let front = (n - 1) as nat;
    let last = categories()[n - 1];
    let category = categories()[at];
    let v = dict_get(sub, name)->0;
    let (s1, out) = trim_categories(env, st, src, res, used, 0, front);
    trim_categories_advances(env, st, src, res, used, 0, front);
    if at == n - 1 {
        entries_lead(env, s1, src, sub, used, category, name);
        let (s2, kept) = trim_entries(env, s1, src, sub, used, category, 0);
        assert(kept.len() > 0) by {
            let i = dict_get_some(kept, name);
        }
        dict_get_insert(out, category.spec_key(), Obj::Dictionary(kept), category.spec_key());
    } else {
        categories_lead(env, st, src, res, used, front, at, name, sub);
        keys_differ(last, category);
        if let Some(other) = sub_dict(env.docs[src as int], res, last.spec_key()) {
            let (s2, kept) = trim_entries(env, s1, src, other, used, last, 0);
            trim_entries_remember(env, s1, src, other, used, last, 0);
            dict_get_insert(out, last.spec_key(), Obj::Dictionary(kept), category.spec_key());
            let held = dict_get(out, category.spec_key())->0->Dictionary_0;
            led_stays(env, s1, s2, src, category.spec_key(), v, dict_get(held, name)->0);
        }
    }
}

/// A name in use that the resources have is there when they are trimmed, leading to the copy of what
/// they have under it.
pub proof fn trimmed_leads(
    env: Env,
    st: State,
    src: nat,
    res: Entries,
    used: Used,
    category: Category,
    name: Seq<char>,
    sub: Entries,
)
    requires
        ids_placed(st),
        used.contains((category, name)),
        entries_under(env.docs[src as int], res, category.spec_key()) == Some(sub),
        keys_once(sub),
        dict_has(sub, name),
    ensures
        ({
            let (s, t) = trimmed_resources(env, st, src, Obj::Dictionary(res), used, 0);
            t is Dictionary && category_leads(
                env,
                s,
                src,
                t->Dictionary_0,
                category,
                name,
                dict_get(sub, name)->0,
            )
        }),
{
    let doc = env.docs[src as int];
    let c = categories();
    assert(c[0] == Category::Font && c[1] == Category::XObject && c[2] == Category::ExtGState && c[3]
        == Category::ColorSpace && c[4] == Category::Pattern && c[5] == Category::Shading && c[6]
        == Category::Properties);
    let at: int = match category {
        Category::Font => 0,
        Category::XObject => 1,
        Category::ExtGState => 2,
        Category::ColorSpace => 3,
        Category::Pattern => 4,
        Category::Shading => 5,
        Category::Properties => 6,
    };
    assert(sub_dict(doc, res, category.spec_key()) == Some(sub));
    categories_lead(env, st, src, res, used, c.len(), at, name, sub);
    let (s1, out) = trim_categories(env, st, src, res, used, 0, c.len());
    keys_differ(category, category);
    if let Some(ps) = dict_get(res, "ProcSet"@) {
        dict_get_insert(out, "ProcSet"@, direct(doc, ps), category.spec_key());
    }
}

/// The category at position `at` holds, once trimmed, what is in use of it, where there is any.
proof fn category_at(env: Env, st: State, src: nat, res: Entries, used: Used, n: nat, at: int)
    requires
        0 <= at < n <= categories().len(),
    ensures
        ({
            let category = categories()[at];
            let out = trim_categories(env, st, src, res, used, 0, n).1;
            let before = trim_categories(env, st, src, res, used, 0, at as nat).0;
            dict_get(out, category.spec_key()) == (match sub_dict(env.docs[src as int], res, category.spec_key()) {
                Some(sub) => {
                    let kept = trim_entries(env, before, src, sub, used, category, 0).1;
                    if kept.len() == 0 {
                        None
                    } else {
                        Some(Obj::Dictionary(kept))
                    }
                },
                None => None,
            })
        }),
    decreases n,
{
    let front = (n - 1) as nat;
    let last = categories()[n - 1];
    let category = categories()[at];
    let (s1, out) = trim_categories(env, st, src, res, used, 0, front);
    if at == n - 1 {
        assert(!among(category, front));
        no_key_before(env, st, src, res, used, 0, front, category);
    } else {
        category_at(env, st, src, res, used, front, at);
    }
    keys_differ(last, category);
    if let Some(sub) = sub_dict(env.docs[src as int], res, last.spec_key()) {
        let kept = trim_entries(env, s1, src, sub, used, last, 0).1;
        dict_get_insert(out, last.spec_key(), Obj::Dictionary(kept), category.spec_key());
    }
}

proof fn other_key_absent(env: Env, st: State, src: nat, res: Entries, used: Used, n: nat, key: Seq<char>)
    requires
        n <= categories().len(),
        key == "Type"@ || key == "ByteRange"@,
    ensures
        dict_get(trim_categories(env, st, src, res, used, 0, n).1, key) is None,
        key != "ProcSet"@,
    decreases n,
{
    reveal_strlit("Type");
    reveal_strlit("ByteRange");
    reveal_strlit("Font");
    reveal_strlit("XObject");
    reveal_strlit("ExtGState");
    reveal_strlit("ColorSpace");
    reveal_strlit("Pattern");
    reveal_strlit("Shading");
    reveal_strlit("Properties");
    reveal_strlit("ProcSet");
    assert("Type"@.len() == 4 && "Type"@[0] == 'T' && "ByteRange"@.len() == 9 && "ByteRange"@[0] == 'B');
    assert("Font"@.len() == 4 && "Font"@[0] == 'F' && "ExtGState"@.len() == 9 && "ExtGState"@[0] == 'E');
    assert("XObject"@.len() == 7 && "Pattern"@.len() == 7 && "Shading"@.len() == 7 && "ProcSet"@.len() == 7);
    assert("ColorSpace"@.len() == 10 && "Properties"@.len() == 10);
    if n > 0 {
        let front = (n - 1) as nat;
        let last = categories()[n - 1];
        other_key_absent(env, st, src, res, used, front, key);
        let (s1, out) = trim_categories(env, st, src, res, used, 0, front);
        if let Some(sub) = sub_dict(env.docs[src as int], res, last.spec_key()) {
            let kept = trim_entries(env, s1, src, sub, used, last, 0).1;
            dict_get_insert(out, last.spec_key(), Obj::Dictionary(kept), key);
        }
    }
}

proof fn kept_signs_not(env: Env, st: State, src: nat, sub: Entries, used: Used, category: Category)
    requires
        ids_placed(st),
        keys_once(sub),
        !signs(sub),
    ensures
        !signs(trim_entries(env, st, src, sub, used, category, 0).1),
{
    let (s, kept) = trim_entries(env, st, src, sub, used, category, 0);
    trim_entries_exact(env, st, src, sub, used, category, 0, "Type"@);
    trim_entries_exact(env, st, src, sub, used, category, 0, "ByteRange"@);
    trim_entries_exact(env, st, src, sub, used, category, 0, "Contents"@);
    let key = category.spec_key();
    if dict_has(kept, "Type"@) {
        entries_lead(env, st, src, sub, used, category, "Type"@);
        copied_resource(env, s, src, key, dict_get(sub, "Type"@)->0, dict_get(kept, "Type"@)->0);
    }
    if dict_has(kept, "ByteRange"@) {
        entries_lead(env, st, src, sub, used, category, "ByteRange"@);
        copied_resource(env, s, src, key, dict_get(sub, "ByteRange"@)->0, dict_get(kept, "ByteRange"@)->0);
    }
}

proof fn copied_resource(env: Env, s: State, src: nat, key: Seq<char>, v: Obj, c: Obj)
    requires
        resource_led(env, s, src, key, v, c),
    ensures
        c is Name ==> v == c,
        is_range(c) ==> is_range(v),
{
    let form = form_number(env.docs[src as int], v);
    if !(key == "XObject"@ && env.opts.trim_forms && form is Some) {
        copied_name(env, s.ids, src, v, c, 1);
    }
}

/// Does the page `d` have no signature dictionary where its resources or one of their categories
/// should stand? A category whose source is none, with each key once, is none.
pub open spec fn resources_quiet(doc: PdfDocument, page: Entries, d: Entries) -> bool {
    dict_get(d, "Resources"@) matches Some(Obj::Dictionary(out)) ==> {
        &&& !signs(out)
        &&& forall|category: Category| #[trigger]
            category_quiet(doc, page, out, category)
    }
}

/// Is the trimmed category no signature dictionary, where its source is none?
pub open spec fn category_quiet(doc: PdfDocument, page: Entries, out: Entries, category: Category) -> bool {
    match entries_under(doc, page, "Resources"@) {
        Some(res) => match entries_under(doc, res, category.spec_key()) {
            Some(sub) => match dict_get(out, category.spec_key()) {
                Some(Obj::Dictionary(kept)) => keys_once(sub) && !signs(sub) ==> !signs(kept),
                _ => true,
            },
            None => true,
        },
        None => true,
    }
}

proof fn trimmed_quiet(env: Env, st: State, src: nat, page: Entries, res: Obj, used: Used)
    requires
        ids_placed(st),
    ensures
        ({
            let t = trimmed_resources(env, st, src, res, used, 0).1;
            let doc = env.docs[src as int];
            &&& t is Dictionary
            &&& !signs(t->Dictionary_0)
            &&& entries_under(doc, page, "Resources"@) is Some ==> res == Obj::Dictionary(
                entries_under(doc, page, "Resources"@)->0,
            ) ==> forall|category: Category| #[trigger] category_quiet(doc, page, t->Dictionary_0, category)
        }),
{
    let doc = env.docs[src as int];
    let c = categories();
    if let Some(r) = obj_dict(res) {
        let (s1, out) = trim_categories(env, st, src, r, used, 0, c.len());
        let t = trimmed_resources(env, st, src, res, used, 0).1->Dictionary_0;
        other_key_absent(env, st, src, r, used, c.len(), "Type"@);
        other_key_absent(env, st, src, r, used, c.len(), "ByteRange"@);
        if let Some(ps) = dict_get(r, "ProcSet"@) {
            dict_get_insert(out, "ProcSet"@, direct(doc, ps), "Type"@);
            dict_get_insert(out, "ProcSet"@, direct(doc, ps), "ByteRange"@);
        }
        assert(c[0] == Category::Font && c[1] == Category::XObject && c[2] == Category::ExtGState && c[3]
            == Category::ColorSpace && c[4] == Category::Pattern && c[5] == Category::Shading && c[6]
            == Category::Properties);
        if entries_under(doc, page, "Resources"@) is Some && res == Obj::Dictionary(
            entries_under(doc, page, "Resources"@)->0,
        ) {
            assert forall|category: Category| #[trigger] category_quiet(doc, page, t, category) by {
                let at: int = match category {
                    Category::Font => 0,
                    Category::XObject => 1,
                    Category::ExtGState => 2,
                    Category::ColorSpace => 3,
                    Category::Pattern => 4,
                    Category::Shading => 5,
                    Category::Properties => 6,
                };
                category_at(env, st, src, r, used, c.len(), at);
                keys_differ(category, category);
                if let Some(ps) = dict_get(r, "ProcSet"@) {
                    dict_get_insert(out, "ProcSet"@, direct(doc, ps), category.spec_key());
                }
                if let Some(sub) = entries_under(doc, r, category.spec_key()) {
                    assert(sub_dict(doc, r, category.spec_key()) == Some(sub));
                    if keys_once(sub) && !signs(sub) {
                        let before = trim_categories(env, st, src, r, used, 0, at as nat).0;
                        trim_categories_advances(env, st, src, r, used, 0, at as nat);
                        kept_signs_not(env, before, src, sub, used, category);
                    }
                }
            }
        }
    } else {
        let none: Entries = Seq::empty();
        assert(dict_get(none, "Type"@) is None && dict_get(none, "ByteRange"@) is None);
    }
}

/// The resources of a page that was copied up to its annotations are no signature.
pub proof fn body_quiet(env: Env, st: State, src: nat, page: Entries, content: Content)
    requires
        ids_placed(st),
    ensures
        resources_quiet(env.docs[src as int], page, page_body(env, st, src, page, content).1),
{
    let doc = env.docs[src as int];
    let none: Entries = Seq::empty();
    let kind = Obj::Name("Page"@);
    let d0 = dict_insert(none, "Type"@, kind);
    let (s1, d1) = carry(env, st, src, page, geometry_keys(), 1, d0);
    carried(env, st, src, page, geometry_keys(), 1, d0, "Resources"@);
    page_keys_apart();
    assert(!geometry_keys().contains("Resources"@)) by {
        if geometry_keys().contains("Resources"@) {
            let i = choose|i: int| 0 <= i < geometry_keys().len() && geometry_keys()[i] == "Resources"@;
            assert(geometry_keys()[i] == "Resources"@);
        }
    }
    reveal_strlit("Type");
    reveal_strlit("Resources");
    assert("Type"@.len() == 4 && "Resources"@.len() == 9);
    dict_get_insert(none, "Type"@, kind, "Resources"@);
    assert(dict_get(none, "Resources"@) is None);
    let keys = seq!["Contents"@];
    assert(keys[0] == "Contents"@);
    assert(!keys.contains("Resources"@));
    if let Some(r) = dict_get(page, "Resources"@) {
        if let Some(res) = resolve(doc, r) {
            let used = all_use(doc, res, content);
            let (s2, t) = trimmed_resources(env, s1, src, res, used, 0);
            trimmed_quiet(env, s1, src, page, res, used);
            resources_advance(env, s1, src, res, used, 0);
            let d2 = dict_insert(d1, "Resources"@, t);
            dict_get_insert(d1, "Resources"@, t, "Resources"@);
            carried(env, s2, src, page, keys, 1, d2, "Resources"@);
            if let Some(res) = entries_under(doc, page, "Resources"@) {
                assert(resolve(doc, r) == Some(Obj::Dictionary(res)));
            } else {
                assert forall|category: Category| #[trigger] category_quiet(doc, page, t->Dictionary_0, category) by {}
            }
        } else {
            carried(env, s1, src, page, keys, 1, d1, "Resources"@);
        }
    } else {
        carried(env, s1, src, page, keys, 1, d1, "Resources"@);
    }
}

proof fn leads_stays(
    env: Env,
    a: State,
    b: State,
    src: nat,
    page: Entries,
    d: Entries,
    e: Entries,
    key: Seq<char>,
    name: Seq<char>,
)
    requires
        name_led(env, a, src, page, d, key, name),
        extends(a.ids, b.ids),
        extends(a.forms, b.forms),
        dict_get(e, "Resources"@) == dict_get(d, "Resources"@),
    ensures
        name_led(env, b, src, page, e, key, name),
{
    if let Some(v) = resource_in(env.docs[src as int], page, key, name) {
        let out = dict_get(d, "Resources"@)->0->Dictionary_0;
        let held = dict_get(out, key)->0->Dictionary_0;
        led_stays(env, a, b, src, key, v, dict_get(held, name)->0);
    }
}

/// What an operator names stays there for as long as more is copied.
pub proof fn operator_stays(
    env: Env,
    a: State,
    b: State,
    src: nat,
    page: Entries,
    d: Entries,
    e: Entries,
    op: Operator,
)
    requires
        operator_led(env, a, src, page, d, op),
        extends(a.ids, b.ids),
        extends(a.forms, b.forms),
        dict_get(e, "Resources"@) == dict_get(d, "Resources"@),
    ensures
        operator_led(env, b, src, page, e, op),
{
    assert forall|key: Seq<char>, name: Seq<char>| #[trigger]
        name_led(env, a, src, page, d, key, name) implies name_led(env, b, src, page, e, key, name) by {
        leads_stays(env, a, b, src, page, d, e, key, name);
    }
}

proof fn body_name_led(
    env: Env,
    st: State,
    src: nat,
    page: Entries,
    content: Content,
    category: Category,
    name: Seq<char>,
)
    requires
        ids_placed(st),
        content_need(content).contains((category, name)),
    ensures
        ({
            let (s, d) = page_body(env, st, src, page, content);
            name_led(env, s, src, page, d, category.spec_key(), name)
        }),
{
    let doc = env.docs[src as int];
    if let Some(v) = resource_in(doc, page, category.spec_key(), name) {
        let res = entries_under(doc, page, "Resources"@)->0;
        let sub = entries_under(doc, res, category.spec_key())->0;
        let r = dict_get(page, "Resources"@)->0;
        assert(resolve(doc, r) == Some(Obj::Dictionary(res)));
        let used = all_use(doc, Obj::Dictionary(res), content);
        let d0 = dict_insert(Seq::empty(), "Type"@, Obj::Name("Page"@));
        let (s1, d1) = carry(env, st, src, page, geometry_keys(), 1, d0);
        carried(env, st, src, page, geometry_keys(), 1, d0, "Resources"@);
        let (s2, t) = trimmed_resources(env, s1, src, Obj::Dictionary(res), used, 0);
        trimmed_leads(env, s1, src, res, used, category, name, sub);
        resources_advance(env, s1, src, Obj::Dictionary(res), used, 0);
        let d2 = dict_insert(d1, "Resources"@, t);
        dict_get_insert(d1, "Resources"@, t, "Resources"@);
        let keys = seq!["Contents"@];
        assert(!keys.contains("Resources"@)) by {
            reveal_strlit("Contents");
            reveal_strlit("Resources");
            assert("Contents"@.len() == 8 && "Resources"@.len() == 9);
            assert(keys[0] == "Contents"@);
        }
        carried(env, s2, src, page, keys, 1, d2, "Resources"@);
        let (s3, d3) = carry(env, s2, src, page, keys, 1, d2);
        assert(name_led(env, s2, src, page, d2, category.spec_key(), name));
        leads_stays(env, s2, s3, src, page, d2, d3, category.spec_key(), name);
    }
}

/// A page that was copied up to its annotations has each resource that an operator of its content
/// names or may paint with, where the source page has it.
pub proof fn body_names_led(env: Env, st: State, src: nat, page: Entries, content: Content, i: int)
    requires
        ids_placed(st),
        content is Operators,
        0 <= i < content.operators().len(),
    ensures
        ({
            let (s, d) = page_body(env, st, src, page, content);
            operator_led(env, s, src, page, d, content.operators()[i])
        }),
{
    let ops = content.operators();
    let op = ops[i];
    let (s, d) = page_body(env, st, src, page, content);
    let need = content_need(content);
    assert forall|category: Category, name: Seq<char>| #[trigger] need.contains((category, name)) implies name_led(
        env,
        s,
        src,
        page,
        d,
        category.spec_key(),
        name,
    ) by {
        body_name_led(env, st, src, page, content, category, name);
    }
    if let Some(p) = op_use(op) {
        assert(op_use(ops[i]) == Some(p));
        assert(need.contains((p.0, p.1)));
    }
    let gray = (Category::ColorSpace, "DefaultGray"@);
    let rgb = (Category::ColorSpace, "DefaultRGB"@);
    let cmyk = (Category::ColorSpace, "DefaultCMYK"@);
    if op_default(op, gray) {
        assert(op_default(ops[i], gray));
        assert(need.contains((Category::ColorSpace, "DefaultGray"@)));
    }
    if op_default(op, rgb) {
        assert(op_default(ops[i], rgb));
        assert(need.contains((Category::ColorSpace, "DefaultRGB"@)));
    }
    if op_default(op, cmyk) {
        assert(op_default(ops[i], cmyk));
        assert(need.contains((Category::ColorSpace, "DefaultCMYK"@)));
    }
}

} // verus!
