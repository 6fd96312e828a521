//! What is painted on a plate, told from the operators of a page and the commands that they give.

use vstd::prelude::*;
use crate::document::{Failure, Operator, PdfDocument, Scalar, SourcePage, TextElement};
use crate::object::{dict_get, dict_get_some, views, Entries, Obj, Object};
use super::color::{
    enter_space, ink_position, initial_components, position_holds, tint, Colors, Paint,
};
use super::unused::inkless;
use super::{plate_commands, plate_plan, zero_bytes};
use super::route::{
    commands_of, fill_tint, page_start, route_op, route_ops, run_commands, stroke_tint, text_tint, walk_op, Command,
    PlateCommand, Setting, Walk,
};
use super::spaces::{
    classify, classify_array, color_spaces, device_space, names_in, resolve_space, Space,
};

verus! {

/// Does the page `after` have the content of `before` with the operators `more` behind it, and the same
/// resources?
pub open spec fn goes_on(before: SourcePage, after: SourcePage, more: Seq<Operator>) -> bool {
    &&& before.content is Operators
    &&& after.content is Operators
    &&& after.resources@ == before.resources@
    &&& after.content.operators() == before.content.operators() + more
}

/// The colour spaces of a page.
pub open spec fn page_spaces(doc: PdfDocument, page: SourcePage) -> Entries {
    color_spaces(doc, page.resources@)->Ok_0
}

/// What stays the same while a page is gone through.
pub open spec fn setting(doc: PdfDocument, page: SourcePage, ink: Seq<char>) -> Setting {
    Setting { doc, ink, resources: page.resources@, spaces: page_spaces(doc, page) }
}

/// Where going through a page ends.
pub open spec fn end_of(doc: PdfDocument, page: SourcePage, ink: Seq<char>) -> Walk {
    route_ops(
        setting(doc, page, ink),
        Set::empty(),
        page.content.operators(),
        0,
        page_start(),
        Seq::empty(),
    )->Ok_0.0
}

proof fn route_shifts(set: Setting, active: Set<usize>, a: Seq<Operator>, b: Seq<Operator>, i: nat, w: Walk, out: Seq<Command>)
    requires
        i <= b.len(),
    ensures
        route_ops(set, active, a + b, a.len() + i, w, out) == route_ops(set, active, b, i, w, out),
    decreases b.len() - i,
{
    if i < b.len() {
        assert((a + b)[(a.len() + i) as int] == b[i as int]);
        if let Ok((next, more)) = route_op(set, active, b[i as int], w, out) {
            route_shifts(set, active, a, b, i + 1, next, more);
        }
    }
}

pub proof fn route_appends(set: Setting, active: Set<usize>, a: Seq<Operator>, b: Seq<Operator>, i: nat, w: Walk, out: Seq<Command>)
    requires
        i <= a.len(),
        w.stack.len() > 0,
    ensures
        route_ops(set, active, a + b, i, w, out) == (match route_ops(set, active, a, i, w, out) {
            Err(e) => Err(e),
            Ok((w1, out1)) => route_ops(set, active, b, 0, w1, out1),
        }),
        route_ops(set, active, a, i, w, out) matches Ok((w1, _)) ==> w1.stack.len() > 0,
    decreases a.len() - i,
{
    if i < a.len() {
        assert((a + b)[i as int] == a[i as int]);
        if let Ok((next, more)) = route_op(set, active, a[i as int], w, out) {
            route_appends(set, active, a, b, i + 1, next, more);
        }
    } else {
        route_shifts(set, active, a, b, 0, w, out);
    }
}

/// Going on with a page goes on from where it ended.
pub proof fn page_goes_on(doc: PdfDocument, before: SourcePage, after: SourcePage, ink: Seq<char>, more: Seq<Operator>)
    requires
        goes_on(before, after, more),
        plate_commands(doc, before, ink) is Ok,
    ensures
        end_of(doc, before, ink).stack.len() > 0,
        plate_commands(doc, after, ink) == (match route_ops(
            setting(doc, before, ink),
            Set::empty(),
            more,
            0,
            end_of(doc, before, ink),
            plate_commands(doc, before, ink)->Ok_0,
        ) {
            Err(e) => Err(e),
            Ok((_, list)) => Ok(list),
        }),
{
    route_appends(
        setting(doc, before, ink),
        Set::empty(),
        before.content.operators(),
        more,
        0,
        page_start(),
        Seq::empty(),
    );
}

/// One operator that draws no form.
pub proof fn one_step(active: Set<usize>, set: Setting, ops: Seq<Operator>, i: nat, w: Walk, out: Seq<Command>)
    requires
        i < ops.len(),
        !(ops[i as int] is Do),
        w.stack.len() > 0,
    ensures
        ({
            let next = walk_op(set.doc, set.spaces, w, ops[i as int]);
            &&& next.stack.len() > 0
            &&& route_ops(set, active, ops, i, w, out) == route_ops(
                set,
                active,
                ops,
                i + 1,
                next,
                out + commands_of(set, w, ops[i as int]),
            )
        }),
{
    let next = walk_op(set.doc, set.spaces, w, ops[i as int]);
    let more = out + commands_of(set, w, ops[i as int]);
    assert(route_op(set, active, ops[i as int], w, out) == Ok::<(Walk, Seq<Command>), Failure>((next, more)));
}

/// The number nearest to `s` from zero to one, as the bits of a single-precision number tell it: those
/// of zero have no bit set, those of one are `0x3f80_0000`, and those of a number below zero are
/// `0x8000_0000` or more.
pub open spec fn clamped(s: Scalar) -> Scalar {
    if s.bits >= 0x8000_0000 {
        Scalar { bits: 0 }
    } else if s.bits > 0x3f80_0000 {
        Scalar { bits: 0x3f80_0000 }
    } else {
        s
    }
}

/// The tint that four components give a process ink.
pub open spec fn process_tint(v: Seq<Scalar>, ink: Seq<char>) -> Option<Scalar> {
    if v.len() < 4 {
        None
    } else if ink == "Cyan"@ {
        Some(clamped(v[0]))
    } else if ink == "Magenta"@ {
        Some(clamped(v[1]))
    } else if ink == "Yellow"@ {
        Some(clamped(v[2]))
    } else if ink == "Black"@ {
        Some(clamped(v[3]))
    } else {
        None
    }
}

/// Is it a name of the device space with four components?
pub open spec fn cmyk_name(name: Seq<char>) -> bool {
    name == "DeviceCMYK"@ || name == "CMYK"@
}

/// Is it a name of the device space with three components?
pub open spec fn rgb_name(name: Seq<char>) -> bool {
    name == "DeviceRGB"@ || name == "RGB"@
}

/// Is it a name of the device space with one component?
pub open spec fn gray_name(name: Seq<char>) -> bool {
    name == "DeviceGray"@ || name == "G"@
}

/// The object that says what the name of a colour space means: what the resources have under it, or,
/// for a device space, what they put in its place. A name that stands for another leads on to that.
pub open spec fn governing(spaces: Entries, name: Seq<char>) -> Option<Obj> {
    if cmyk_name(name) {
        dict_get(spaces, "DefaultCMYK"@)
    } else if rgb_name(name) {
        dict_get(spaces, "DefaultRGB"@)
    } else if gray_name(name) {
        dict_get(spaces, "DefaultGray"@)
    } else {
        match dict_get(spaces, name) {
            Some(Obj::Name(other)) => if cmyk_name(other) || rgb_name(other) || gray_name(other) {
                Some(Obj::Name(other))
            } else {
                match dict_get(spaces, other) {
                    Some(Obj::Array(a)) => Some(Obj::Array(a)),
                    _ => Some(Obj::Name(other)),
                }
            },
            o => o,
        }
    }
}

/// Is it the space of one spot ink?
pub open spec fn is_separation(o: Obj, spot: Seq<char>) -> bool {
    o matches Obj::Array(a) && a.len() > 1 && a[0] == Obj::Name("Separation"@) && a[1] == Obj::Name(spot)
}

/// Is it the space of the given inks, in that order?
pub open spec fn is_device_n(o: Obj, inks: Seq<Seq<char>>) -> bool {
    o matches Obj::Array(a) && a.len() > 1 && a[0] == Obj::Name("DeviceN"@) && (a[1] matches Obj::Array(names)
        && names.len() == inks.len() && forall|i: int|
        0 <= i < inks.len() ==> #[trigger] names[i] == Obj::Name(inks[i]))
}

/// Is it the space of a colour profile with the given number of components?
pub open spec fn is_profile(doc: PdfDocument, o: Obj, components: i64) -> bool {
    o matches Obj::Array(a) && a.len() > 1 && a[0] == Obj::Name("ICCBased"@) && match a[1] {
        Obj::Reference(id, _) => match doc.lookup(id) {
            Some(Obj::Stream(d, _)) => dict_get(d, "N"@) == Some(Obj::Integer(components)),
            _ => false,
        },
        Obj::Stream(d, _) => dict_get(d, "N"@) == Some(Obj::Integer(components)),
        _ => false,
    }
}

/// Is it the space of a colour profile that states no number of components? It counts as one with four.
pub open spec fn is_unstated_profile(doc: PdfDocument, o: Obj) -> bool {
    o matches Obj::Array(a) && a.len() > 1 && a[0] == Obj::Name("ICCBased"@) && match a[1] {
        Obj::Reference(id, _) => match doc.lookup(id) {
            Some(Obj::Stream(d, _)) => dict_get(d, "N"@) is None,
            _ => false,
        },
        Obj::Stream(d, _) => dict_get(d, "N"@) is None,
        _ => false,
    }
}

/// Is it the array of a space of some other kind, such as an indexed or a calibrated one?
pub open spec fn is_other_kind(o: Obj) -> bool {
    o matches Obj::Array(a) && a.len() > 0 && (a[0] matches Obj::Name(kind) && !cmyk_name(kind) && !rgb_name(kind)
        && !gray_name(kind) && kind != "Separation"@ && kind != "DeviceN"@ && kind != "ICCBased"@)
}

/// Is it a device space that the predicate names, by its name or as an array?
pub open spec fn is_device(o: Obj, named: spec_fn(Seq<char>) -> bool) -> bool {
    match o {
        Obj::Name(n) => named(n),
        Obj::Array(a) => a.len() > 0 && (a[0] matches Obj::Name(n) && named(n)),
        _ => false,
    }
}

/// Is `t` the tint that the components `v` in the space of the given name give an ink?
pub open spec fn right_tint(
    doc: PdfDocument,
    spaces: Entries,
    name: Seq<char>,
    v: Seq<Scalar>,
    ink: Seq<char>,
    t: Option<Scalar>,
) -> bool {
    match governing(spaces, name) {
        Some(o) => {
            &&& forall|spot: Seq<char>| #[trigger]
                is_separation(o, spot) ==> t == (if ink == spot && v.len() > 0 {
                    Some(clamped(v[0]))
                } else {
                    None
                })
            &&& forall|inks: Seq<Seq<char>>, i: int|
                #![trigger is_device_n(o, inks), inks[i]]
                is_device_n(o, inks) && 0 <= i < inks.len() && inks[i] == ink && (forall|j: int|
                    0 <= j < i ==> #[trigger] inks[j] != ink) ==> t == (if i < v.len() {
                    Some(clamped(v[i]))
                } else {
                    None
                })
            &&& forall|inks: Seq<Seq<char>>| #[trigger]
                is_device_n(o, inks) && !inks.contains(ink) ==> t is None
            &&& is_profile(doc, o, 4) || is_unstated_profile(doc, o) || is_device(o, |n: Seq<char>| cmyk_name(n)) ==> t
                == process_tint(v, ink)
            &&& is_profile(doc, o, 3) || is_device(o, |n: Seq<char>| rgb_name(n)) ==> t is None
            &&& is_profile(doc, o, 1) || is_device(o, |n: Seq<char>| gray_name(n)) ==> t is None
            &&& is_other_kind(o) ==> t is None
        },
        None => t == (if cmyk_name(name) {
            process_tint(v, ink)
        } else {
            None
        }),
    }
}

pub proof fn space_words()
    ensures
        device_space("Separation"@) is None,
        device_space("DeviceN"@) is None,
        device_space("ICCBased"@) is None,
        "Separation"@ != "DeviceN"@,
        "Separation"@ != "ICCBased"@,
        "DeviceN"@ != "ICCBased"@,
        forall|n: Seq<char>| #![trigger device_space(n)] cmyk_name(n) ==> device_space(n) == Some(Space::Cmyk),
        forall|n: Seq<char>| #![trigger device_space(n)] rgb_name(n) ==> device_space(n) == Some(Space::Rgb) && !cmyk_name(n),
        forall|n: Seq<char>|
            #![trigger device_space(n)]
            gray_name(n) ==> device_space(n) == Some(Space::Gray) && !cmyk_name(n) && !rgb_name(n),
{
    reveal_strlit("Separation");
    reveal_strlit("DeviceN");
    reveal_strlit("ICCBased");
    reveal_strlit("DeviceCMYK");
    reveal_strlit("CMYK");
    reveal_strlit("DeviceRGB");
    reveal_strlit("RGB");
    reveal_strlit("DeviceGray");
    reveal_strlit("G");
    assert("Separation"@.len() == 10 && "Separation"@[0] == 'S');
    assert("DeviceN"@.len() == 7 && "ICCBased"@.len() == 8);
    assert("DeviceCMYK"@.len() == 10 && "DeviceCMYK"@[0] == 'D' && "DeviceCMYK"@[6] == 'C');
    assert("DeviceGray"@.len() == 10 && "DeviceGray"@[0] == 'D' && "DeviceGray"@[6] == 'G');
    assert("DeviceRGB"@.len() == 9 && "CMYK"@.len() == 4 && "RGB"@.len() == 3 && "G"@.len() == 1);
}

proof fn all_names(items: Seq<Obj>, inks: Seq<Seq<char>>)
    requires
        items.len() == inks.len(),
        forall|i: int| 0 <= i < inks.len() ==> #[trigger] items[i] == Obj::Name(inks[i]),
    ensures
        names_in(items) == inks,
    decreases items.len(),
{
    if items.len() > 0 {
        assert(items[items.len() - 1] == Obj::Name(inks[inks.len() - 1]));
        assert forall|i: int| 0 <= i < inks.drop_last().len() implies #[trigger] items.drop_last()[i] == Obj::Name(
            inks.drop_last()[i],
        ) by {
            assert(items[i] == Obj::Name(inks[i]));
        }
        all_names(items.drop_last(), inks.drop_last());
        assert(inks.drop_last().push(inks.last()) =~= inks);
    } else {
        assert(inks =~= Seq::empty());
    }
}

/// What the governing object makes of a name.
pub proof fn governed(doc: PdfDocument, spaces: Entries, name: Seq<char>)
    ensures
        ({
            let space = resolve_space(doc, name, spaces, spaces.len());
            match governing(spaces, name) {
                Some(o) => {
                    &&& o is Array ==> space == classify_array(doc, o->Array_0)
                    &&& o is Name && device_space(o->Name_0) is Some ==> space == device_space(o->Name_0)->0
                },
                None => space == (match device_space(name) {
                    Some(device) => device,
                    None => Space::Unknown,
                }),
            }
        }),
{
    space_words();
    assert(device_space(name) is Some <==> cmyk_name(name) || rgb_name(name) || gray_name(name));
    reveal_with_fuel(resolve_space, 3);
    reveal_with_fuel(classify, 3);
    if device_space(name) is None {
        if let Some(Obj::Name(other)) = dict_get(spaces, name) {
            assert(spaces.len() > 0) by {
                let i = dict_get_some(spaces, name);
            }
            assert(device_space(other) is Some <==> cmyk_name(other) || rgb_name(other) || gray_name(other));
        }
    }
}

proof fn alias_followed(doc: PdfDocument, spaces: Entries, names: Seq<Seq<char>>, i: int, steps: nat, a: Seq<Obj>)
    requires
        0 <= i < names.len(),
        names.len() - i <= steps + 1,
        forall|j: int|
            i <= j < names.len() ==> !cmyk_name(#[trigger] names[j]) && !rgb_name(names[j]) && !gray_name(names[j]),
        forall|j: int|
            i <= j < names.len() - 1 ==> dict_get(spaces, #[trigger] names[j]) == Some(Obj::Name(names[j + 1])),
        dict_get(spaces, names.last()) == Some(Obj::Array(a)),
    ensures
        resolve_space(doc, names[i], spaces, steps) == classify_array(doc, a),
    decreases names.len() - i,
{
    space_words();
    assert(device_space(names[i]) is None);
    if i + 1 < names.len() {
        assert(device_space(names[i + 1]) is None);
        assert(steps > 0);
        alias_followed(doc, spaces, names, i + 1, (steps - 1) as nat, a);
        assert(classify(doc, Obj::Name(names[i + 1]), spaces, steps) == resolve_space(
            doc,
            names[i + 1],
            spaces,
            (steps - 1) as nat,
        ));
    } else {
        assert(names[i] == names.last());
    }
}

/// A name that stands for another name means what that one means, and so on along any row of names.
pub proof fn names_of_names_are_followed(doc: PdfDocument, spaces: Entries, names: Seq<Seq<char>>, a: Seq<Obj>)
    requires
        0 < names.len() <= spaces.len(),
        forall|j: int|
            0 <= j < names.len() ==> !cmyk_name(#[trigger] names[j]) && !rgb_name(names[j]) && !gray_name(names[j]),
        forall|j: int|
            0 <= j < names.len() - 1 ==> dict_get(spaces, #[trigger] names[j]) == Some(Obj::Name(names[j + 1])),
        dict_get(spaces, names.last()) == Some(Obj::Array(a)),
    ensures
        resolve_space(doc, names[0], spaces, spaces.len()) == resolve_space(doc, names.last(), spaces, spaces.len()),
{
    alias_followed(doc, spaces, names, 0, spaces.len(), a);
    alias_followed(doc, spaces, names, names.len() - 1, spaces.len(), a);
}

/// The tint of a colour is the right one.
pub proof fn tint_is_right(doc: PdfDocument, spaces: Entries, name: Seq<char>, v: Seq<Scalar>, ink: Seq<char>)
    ensures
        right_tint(doc, spaces, name, v, ink, tint(doc, spaces, Paint { space: name, components: v }, ink)),
{
    let t = tint(doc, spaces, Paint { space: name, components: v }, ink);
    let space = resolve_space(doc, name, spaces, spaces.len());
    space_words();
    governed(doc, spaces, name);
    if let Some(o) = governing(spaces, name) {
        assert forall|inks: Seq<Seq<char>>| #[trigger] is_device_n(o, inks) implies space == Space::DeviceN(inks) by {
            all_names(o->Array_0[1]->Array_0, inks);
        }
        if let Space::DeviceN(names) = space {
            position_holds(names, ink, 0);
            assert forall|inks: Seq<Seq<char>>, i: int|
                #![trigger is_device_n(o, inks), inks[i]]
                is_device_n(o, inks) && 0 <= i < inks.len() && inks[i] == ink && (forall|j: int|
                    0 <= j < i ==> #[trigger] inks[j] != ink) implies t == (if i < v.len() {
                Some(clamped(v[i]))
            } else {
                None
            }) by {
                let p = ink_position(names, ink, 0)->0;
                position_first(names, ink, 0);
                if p < i {
                    assert(inks[p as int] != ink);
                }
                if i < p {
                    assert(names[i] != ink);
                }
            }
        }
    }
}

proof fn position_first(inks: Seq<Seq<char>>, ink: Seq<char>, from: nat)
    ensures
        ink_position(inks, ink, from) matches Some(i) ==> forall|j: int| from <= j < i ==> #[trigger] inks[j] != ink,
    decreases inks.len() - from,
{
    if from < inks.len() && inks[from as int] != ink {
        position_first(inks, ink, from + 1);
    }
}

/// Going on with one operator that draws no form.
pub proof fn goes_on_one(doc: PdfDocument, before: SourcePage, after: SourcePage, ink: Seq<char>, a: Operator)
    requires
        goes_on(before, after, seq![a]),
        plate_commands(doc, before, ink) is Ok,
        !(a is Do),
    ensures
        plate_commands(doc, after, ink) == Ok::<Seq<Command>, Failure>(
            plate_commands(doc, before, ink)->Ok_0 + commands_of(
                setting(doc, before, ink),
                end_of(doc, before, ink),
                a,
            ),
        ),
        end_of(doc, before, ink).stack.len() > 0,
{
    let set = setting(doc, before, ink);
    let w = end_of(doc, before, ink);
    let list = plate_commands(doc, before, ink)->Ok_0;
    page_goes_on(doc, before, after, ink, seq![a]);
    one_step(Set::empty(), set, seq![a], 0, w, list);
}

/// Going on with two operators that draw no form.
proof fn goes_on_two(doc: PdfDocument, before: SourcePage, after: SourcePage, ink: Seq<char>, a: Operator, b: Operator)
    requires
        goes_on(before, after, seq![a, b]),
        plate_commands(doc, before, ink) is Ok,
        !(a is Do),
        !(b is Do),
    ensures
        ({
            let set = setting(doc, before, ink);
            let w = end_of(doc, before, ink);
            let w1 = walk_op(doc, set.spaces, w, a);
            &&& w.stack.len() > 0
            &&& w1.stack.len() > 0
            &&& plate_commands(doc, after, ink) == Ok::<Seq<Command>, Failure>(
                plate_commands(doc, before, ink)->Ok_0 + commands_of(set, w, a) + commands_of(set, w1, b),
            )
        }),
{
    let set = setting(doc, before, ink);
    let w = end_of(doc, before, ink);
    let list = plate_commands(doc, before, ink)->Ok_0;
    let ops = seq![a, b];
    page_goes_on(doc, before, after, ink, ops);
    one_step(Set::empty(), set, ops, 0, w, list);
    one_step(Set::empty(), set, ops, 1, walk_op(doc, set.spaces, w, a), list + commands_of(set, w, a));
}

/// Going on with three operators that draw no form.
proof fn goes_on_three(
    doc: PdfDocument,
    before: SourcePage,
    after: SourcePage,
    ink: Seq<char>,
    a: Operator,
    b: Operator,
    c: Operator,
)
    requires
        goes_on(before, after, seq![a, b, c]),
        plate_commands(doc, before, ink) is Ok,
        !(a is Do),
        !(b is Do),
        !(c is Do),
    ensures
        ({
            let set = setting(doc, before, ink);
            let w = end_of(doc, before, ink);
            let w1 = walk_op(doc, set.spaces, w, a);
            let w2 = walk_op(doc, set.spaces, w1, b);
            &&& w.stack.len() > 0
            &&& w1.stack.len() > 0
            &&& w2.stack.len() > 0
            &&& plate_commands(doc, after, ink) == Ok::<Seq<Command>, Failure>(
                plate_commands(doc, before, ink)->Ok_0 + commands_of(set, w, a) + commands_of(set, w1, b)
                    + commands_of(set, w2, c),
            )
        }),
{
    let set = setting(doc, before, ink);
    let w = end_of(doc, before, ink);
    let w1 = walk_op(doc, set.spaces, w, a);
    let w2 = walk_op(doc, set.spaces, w1, b);
    let list = plate_commands(doc, before, ink)->Ok_0;
    let ops = seq![a, b, c];
    page_goes_on(doc, before, after, ink, ops);
    one_step(Set::empty(), set, ops, 0, w, list);
    one_step(Set::empty(), set, ops, 1, w1, list + commands_of(set, w, a));
    one_step(Set::empty(), set, ops, 2, w2, list + commands_of(set, w, a) + commands_of(set, w1, b));
}

/// Is `more` what the plate has of the page `after` beyond that of the page `before`?
pub open spec fn adds(doc: PdfDocument, before: SourcePage, after: SourcePage, ink: Seq<char>, more: Seq<Command>) -> bool {
    plate_commands(doc, after, ink) == Ok::<Seq<Command>, Failure>(plate_commands(doc, before, ink)->Ok_0 + more)
}

/// Is it `sc` or `scn` with the given components?
pub open spec fn sets_fill(op: Operator, v: Seq<Scalar>) -> bool {
    match op {
        Operator::SetFillColor { components } => components@ == v,
        Operator::SetFillColorN { components, .. } => components@ == v,
        _ => false,
    }
}

/// Is it `SC` or `SCN` with the given components?
pub open spec fn sets_stroke(op: Operator, v: Seq<Scalar>) -> bool {
    match op {
        Operator::SetStrokeColor { components } => components@ == v,
        Operator::SetStrokeColorN { components, .. } => components@ == v,
        _ => false,
    }
}

/// A fill in a colour that was set by its components in a space: after `cs` with the name of a space
/// and `sc` or `scn` with components, the plate of an ink is filled with the tint that the components
/// give the ink in that space.
pub proof fn fill_shows_its_components(
    doc: PdfDocument,
    before: SourcePage,
    after: SourcePage,
    ink: Seq<char>,
    enter: Operator,
    set: Operator,
    v: Seq<Scalar>,
)
    requires
        plate_commands(doc, before, ink) is Ok,
        enter is SetFillColorSpace,
        sets_fill(set, v),
        goes_on(before, after, seq![enter, set, Operator::Fill]),
    ensures
        exists|t: Option<Scalar>|
            #![trigger right_tint(doc, page_spaces(doc, before), enter->SetFillColorSpace_name@, v, ink, t)]
            {
                &&& right_tint(doc, page_spaces(doc, before), enter->SetFillColorSpace_name@, v, ink, t)
                &&& adds(
                    doc,
                    before,
                    after,
                    ink,
                    seq![
                        Command::State(enter),
                        Command::State(set),
                        Command::Paint { fill: t, stroke: None, even_odd: false },
                    ],
                )
            },
{
    let spaces = page_spaces(doc, before);
    let name = enter->SetFillColorSpace_name@;
    goes_on_three(doc, before, after, ink, enter, set, Operator::Fill);
    tint_is_right(doc, spaces, name, v, ink);
    let t = tint(doc, spaces, Paint { space: name, components: v }, ink);
    let list = plate_commands(doc, before, ink)->Ok_0;
    let paint = Command::Paint { fill: t, stroke: None, even_odd: false };
    assert(list + seq![Command::State(enter)] + seq![Command::State(set)] + seq![paint] =~= list + seq![
        Command::State(enter),
        Command::State(set),
        paint,
    ]);
}

/// A stroke in a colour that was set by its components in a space: after `CS` with the name of a space
/// and `SC` or `SCN` with components, the plate of an ink is stroked with the tint that the components
/// give the ink in that space.
pub proof fn stroke_shows_its_components(
    doc: PdfDocument,
    before: SourcePage,
    after: SourcePage,
    ink: Seq<char>,
    enter: Operator,
    set: Operator,
    v: Seq<Scalar>,
)
    requires
        plate_commands(doc, before, ink) is Ok,
        enter is SetStrokeColorSpace,
        sets_stroke(set, v),
        goes_on(before, after, seq![enter, set, Operator::Stroke]),
    ensures
        exists|t: Option<Scalar>|
            #![trigger right_tint(doc, page_spaces(doc, before), enter->SetStrokeColorSpace_name@, v, ink, t)]
            {
                &&& right_tint(doc, page_spaces(doc, before), enter->SetStrokeColorSpace_name@, v, ink, t)
                &&& adds(
                    doc,
                    before,
                    after,
                    ink,
                    seq![
                        Command::State(enter),
                        Command::State(set),
                        Command::Paint { fill: None, stroke: t, even_odd: false },
                    ],
                )
            },
{
    let spaces = page_spaces(doc, before);
    let name = enter->SetStrokeColorSpace_name@;
    goes_on_three(doc, before, after, ink, enter, set, Operator::Stroke);
    tint_is_right(doc, spaces, name, v, ink);
    let t = tint(doc, spaces, Paint { space: name, components: v }, ink);
    let list = plate_commands(doc, before, ink)->Ok_0;
    let paint = Command::Paint { fill: None, stroke: t, even_odd: false };
    assert(list + seq![Command::State(enter)] + seq![Command::State(set)] + seq![paint] =~= list + seq![
        Command::State(enter),
        Command::State(set),
        paint,
    ]);
}

/// Is it an operator that sets the fill colour to the components `v` in the device space of that name?
pub open spec fn device_fill(op: Operator, name: Seq<char>, v: Seq<Scalar>) -> bool {
    match op {
        Operator::SetFillGray { gray } => name == "DeviceGray"@ && v == seq![gray],
        Operator::SetFillRgb { r, g, b } => name == "DeviceRGB"@ && v == seq![r, g, b],
        Operator::SetFillCmyk { c, m, y, k } => name == "DeviceCMYK"@ && v == seq![c, m, y, k],
        _ => false,
    }
}

/// Is it an operator that sets the stroke colour to the components `v` in the device space of that name?
pub open spec fn device_stroke(op: Operator, name: Seq<char>, v: Seq<Scalar>) -> bool {
    match op {
        Operator::SetStrokeGray { gray } => name == "DeviceGray"@ && v == seq![gray],
        Operator::SetStrokeRgb { r, g, b } => name == "DeviceRGB"@ && v == seq![r, g, b],
        Operator::SetStrokeCmyk { c, m, y, k } => name == "DeviceCMYK"@ && v == seq![c, m, y, k],
        _ => false,
    }
}

/// A fill after `g`, `rg` or `k` has the tint that the components give the ink in the device space, or
/// in what the resources put in its place.
pub proof fn device_fill_shows_its_components(
    doc: PdfDocument,
    before: SourcePage,
    after: SourcePage,
    ink: Seq<char>,
    set: Operator,
    name: Seq<char>,
    v: Seq<Scalar>,
)
    requires
        plate_commands(doc, before, ink) is Ok,
        device_fill(set, name, v),
        goes_on(before, after, seq![set, Operator::Fill]),
    ensures
        exists|t: Option<Scalar>|
            {
                &&& #[trigger] right_tint(doc, page_spaces(doc, before), name, v, ink, t)
                &&& adds(
                    doc,
                    before,
                    after,
                    ink,
                    seq![Command::State(set), Command::Paint { fill: t, stroke: None, even_odd: false }],
                )
            },
{
    let spaces = page_spaces(doc, before);
    goes_on_two(doc, before, after, ink, set, Operator::Fill);
    tint_is_right(doc, spaces, name, v, ink);
    let t = tint(doc, spaces, Paint { space: name, components: v }, ink);
    let list = plate_commands(doc, before, ink)->Ok_0;
    let paint = Command::Paint { fill: t, stroke: None, even_odd: false };
    assert(list + seq![Command::State(set)] + seq![paint] =~= list + seq![Command::State(set), paint]);
}

/// A stroke after `G`, `RG` or `K` has the tint that the components give the ink in the device space,
/// or in what the resources put in its place.
pub proof fn device_stroke_shows_its_components(
    doc: PdfDocument,
    before: SourcePage,
    after: SourcePage,
    ink: Seq<char>,
    set: Operator,
    name: Seq<char>,
    v: Seq<Scalar>,
)
    requires
        plate_commands(doc, before, ink) is Ok,
        device_stroke(set, name, v),
        goes_on(before, after, seq![set, Operator::Stroke]),
    ensures
        exists|t: Option<Scalar>|
            {
                &&& #[trigger] right_tint(doc, page_spaces(doc, before), name, v, ink, t)
                &&& adds(
                    doc,
                    before,
                    after,
                    ink,
                    seq![Command::State(set), Command::Paint { fill: None, stroke: t, even_odd: false }],
                )
            },
{
    let spaces = page_spaces(doc, before);
    goes_on_two(doc, before, after, ink, set, Operator::Stroke);
    tint_is_right(doc, spaces, name, v, ink);
    let t = tint(doc, spaces, Paint { space: name, components: v }, ink);
    let list = plate_commands(doc, before, ink)->Ok_0;
    let paint = Command::Paint { fill: None, stroke: t, even_odd: false };
    assert(list + seq![Command::State(set)] + seq![paint] =~= list + seq![Command::State(set), paint]);
}

/// Is `t` the tint that the initial colour of the space of the given name gives an ink? That is full
/// tint of every spot ink of the space, and black alone of the process inks.
pub open spec fn initial_tint(
    doc: PdfDocument,
    spaces: Entries,
    name: Seq<char>,
    ink: Seq<char>,
    t: Option<Scalar>,
) -> bool {
    let full = Scalar { bits: 0x3f80_0000 };
    let none = Scalar { bits: 0 };
    match governing(spaces, name) {
        Some(o) => {
            &&& forall|spot: Seq<char>| #[trigger]
                is_separation(o, spot) ==> t == (if ink == spot {
                    Some(full)
                } else {
                    None
                })
            &&& forall|inks: Seq<Seq<char>>| #[trigger]
                is_device_n(o, inks) ==> t == (if inks.contains(ink) {
                    Some(full)
                } else {
                    None
                })
            &&& is_profile(doc, o, 4) || is_unstated_profile(doc, o) || is_device(o, |n: Seq<char>| cmyk_name(n)) ==> t
                == process_tint(
                seq![none, none, none, full],
                ink,
            )
            &&& is_profile(doc, o, 3) || is_device(o, |n: Seq<char>| rgb_name(n)) ==> t is None
            &&& is_profile(doc, o, 1) || is_device(o, |n: Seq<char>| gray_name(n)) ==> t is None
            &&& is_other_kind(o) ==> t is None
        },
        None => t == (if cmyk_name(name) {
            process_tint(seq![none, none, none, full], ink)
        } else {
            None
        }),
    }
}

proof fn initial_is_right(doc: PdfDocument, spaces: Entries, name: Seq<char>, ink: Seq<char>)
    ensures
        initial_tint(doc, spaces, name, ink, tint(doc, spaces, enter_space(doc, spaces, name), ink)),
{
    let t = tint(doc, spaces, enter_space(doc, spaces, name), ink);
    let space = resolve_space(doc, name, spaces, spaces.len());
    let v = initial_components(space);
    space_words();
    governed(doc, spaces, name);
    if let Some(o) = governing(spaces, name) {
        assert forall|inks: Seq<Seq<char>>| #[trigger] is_device_n(o, inks) implies space == Space::DeviceN(inks) by {
            all_names(o->Array_0[1]->Array_0, inks);
        }
        if let Space::DeviceN(names) = space {
            position_holds(names, ink, 0);
        }
    }
}

/// A fill right after `cs` is in the initial colour of the space.
pub proof fn fill_shows_the_initial_colour(
    doc: PdfDocument,
    before: SourcePage,
    after: SourcePage,
    ink: Seq<char>,
    enter: Operator,
)
    requires
        plate_commands(doc, before, ink) is Ok,
        enter is SetFillColorSpace,
        goes_on(before, after, seq![enter, Operator::Fill]),
    ensures
        exists|t: Option<Scalar>|
            #![trigger initial_tint(doc, page_spaces(doc, before), enter->SetFillColorSpace_name@, ink, t)]
            {
                &&& initial_tint(doc, page_spaces(doc, before), enter->SetFillColorSpace_name@, ink, t)
                &&& adds(
                    doc,
                    before,
                    after,
                    ink,
                    seq![Command::State(enter), Command::Paint { fill: t, stroke: None, even_odd: false }],
                )
            },
{
    let spaces = page_spaces(doc, before);
    let name = enter->SetFillColorSpace_name@;
    goes_on_two(doc, before, after, ink, enter, Operator::Fill);
    initial_is_right(doc, spaces, name, ink);
    let t = tint(doc, spaces, enter_space(doc, spaces, name), ink);
    let list = plate_commands(doc, before, ink)->Ok_0;
    let paint = Command::Paint { fill: t, stroke: None, even_odd: false };
    assert(list + seq![Command::State(enter)] + seq![paint] =~= list + seq![Command::State(enter), paint]);
}

/// A stroke right after `CS` is in the initial colour of the space.
pub proof fn stroke_shows_the_initial_colour(
    doc: PdfDocument,
    before: SourcePage,
    after: SourcePage,
    ink: Seq<char>,
    enter: Operator,
)
    requires
        plate_commands(doc, before, ink) is Ok,
        enter is SetStrokeColorSpace,
        goes_on(before, after, seq![enter, Operator::Stroke]),
    ensures
        exists|t: Option<Scalar>|
            #![trigger initial_tint(doc, page_spaces(doc, before), enter->SetStrokeColorSpace_name@, ink, t)]
            {
                &&& initial_tint(doc, page_spaces(doc, before), enter->SetStrokeColorSpace_name@, ink, t)
                &&& adds(
                    doc,
                    before,
                    after,
                    ink,
                    seq![Command::State(enter), Command::Paint { fill: None, stroke: t, even_odd: false }],
                )
            },
{
    let spaces = page_spaces(doc, before);
    let name = enter->SetStrokeColorSpace_name@;
    goes_on_two(doc, before, after, ink, enter, Operator::Stroke);
    initial_is_right(doc, spaces, name, ink);
    let t = tint(doc, spaces, enter_space(doc, spaces, name), ink);
    let list = plate_commands(doc, before, ink)->Ok_0;
    let paint = Command::Paint { fill: None, stroke: t, even_odd: false };
    assert(list + seq![Command::State(enter)] + seq![paint] =~= list + seq![Command::State(enter), paint]);
}

/// Does the page `after` have, beyond `before`, a plain fill with the given tint?
pub open spec fn fills_with(doc: PdfDocument, before: SourcePage, after: SourcePage, ink: Seq<char>, t: Option<Scalar>) -> bool {
    adds(doc, before, after, ink, seq![Command::Paint { fill: t, stroke: None, even_odd: false }])
}

/// Does the page `after` have, beyond `before`, a plain stroke with the given tint?
pub open spec fn strokes_with(doc: PdfDocument, before: SourcePage, after: SourcePage, ink: Seq<char>, t: Option<Scalar>) -> bool {
    adds(doc, before, after, ink, seq![Command::Paint { fill: None, stroke: t, even_odd: false }])
}

pub proof fn filled_next(doc: PdfDocument, before: SourcePage, after: SourcePage, ink: Seq<char>)
    requires
        plate_commands(doc, before, ink) is Ok,
        goes_on(before, after, seq![Operator::Fill]),
    ensures
        fills_with(doc, before, after, ink, fill_tint(setting(doc, before, ink), end_of(doc, before, ink))),
{
    goes_on_one(doc, before, after, ink, Operator::Fill);
}

pub proof fn stroked_next(doc: PdfDocument, before: SourcePage, after: SourcePage, ink: Seq<char>)
    requires
        plate_commands(doc, before, ink) is Ok,
        goes_on(before, after, seq![Operator::Stroke]),
    ensures
        strokes_with(doc, before, after, ink, stroke_tint(setting(doc, before, ink), end_of(doc, before, ink))),
{
    goes_on_one(doc, before, after, ink, Operator::Stroke);
}

/// How the path is painted by an operator: whether it fills, whether it strokes, and whether by the
/// even-odd rule.
pub open spec fn painting(op: Operator) -> Option<(bool, bool, bool)> {
    match op {
        Operator::Stroke => Some((false, true, false)),
        Operator::Fill => Some((true, false, false)),
        Operator::FillEvenOdd => Some((true, false, true)),
        Operator::FillStroke => Some((true, true, false)),
        Operator::CloseFillStroke => Some((true, true, false)),
        Operator::FillStrokeEvenOdd => Some((true, true, true)),
        Operator::CloseFillStrokeEvenOdd => Some((true, true, true)),
        Operator::EndPath => Some((false, false, false)),
        _ => None,
    }
}

/// All operators that paint a path agree on the tints: each fills with the tint of a plain fill and
/// strokes with that of a plain stroke, as far as it does the one or the other.
pub proof fn painting_operators_agree(
    doc: PdfDocument,
    before: SourcePage,
    filled: SourcePage,
    stroked: SourcePage,
    after: SourcePage,
    ink: Seq<char>,
    op: Operator,
)
    requires
        plate_commands(doc, before, ink) is Ok,
        painting(op) is Some,
        goes_on(before, filled, seq![Operator::Fill]),
        goes_on(before, stroked, seq![Operator::Stroke]),
        goes_on(before, after, seq![op]),
    ensures
        exists|f: Option<Scalar>, s: Option<Scalar>|
            {
                let (fills, strokes, even_odd) = painting(op)->0;
                &&& #[trigger] fills_with(doc, before, filled, ink, f)
                &&& #[trigger] strokes_with(doc, before, stroked, ink, s)
                &&& adds(
                    doc,
                    before,
                    after,
                    ink,
                    seq![
                        Command::Paint {
                            fill: if fills {
                                f
                            } else {
                                None
                            },
                            stroke: if strokes {
                                s
                            } else {
                                None
                            },
                            even_odd,
                        },
                    ],
                )
            },
{
    let set = setting(doc, before, ink);
    let w = end_of(doc, before, ink);
    filled_next(doc, before, filled, ink);
    stroked_next(doc, before, stroked, ink);
    goes_on_one(doc, before, after, ink, op);
    let f = fill_tint(set, w);
    let s = stroke_tint(set, w);
    assert(fills_with(doc, before, filled, ink, f) && strokes_with(doc, before, stroked, ink, s));
}

/// Does the operator set the fill colour?
pub open spec fn colours_fill(op: Operator) -> bool {
    op is SetFillRgb || op is SetFillGray || op is SetFillCmyk || op is SetFillColorSpace || op is SetFillColor
        || op is SetFillColorN
}

/// Does the operator set the stroke colour?
pub open spec fn colours_stroke(op: Operator) -> bool {
    op is SetStrokeRgb || op is SetStrokeGray || op is SetStrokeCmyk || op is SetStrokeColorSpace
        || op is SetStrokeColor || op is SetStrokeColorN
}

/// Where going on with one operator ends.
proof fn end_after(doc: PdfDocument, before: SourcePage, after: SourcePage, ink: Seq<char>, op: Operator)
    requires
        plate_commands(doc, before, ink) is Ok,
        plate_commands(doc, after, ink) is Ok,
        goes_on(before, after, seq![op]),
    ensures
        setting(doc, after, ink) == setting(doc, before, ink),
        end_of(doc, before, ink).stack.len() > 0,
        end_of(doc, after, ink) == (if op is Do {
            end_of(doc, before, ink)
        } else {
            walk_op(doc, page_spaces(doc, before), end_of(doc, before, ink), op)
        }),
{
    let set = setting(doc, before, ink);
    let w = end_of(doc, before, ink);
    let list = plate_commands(doc, before, ink)->Ok_0;
    let ops = seq![op];
    page_goes_on(doc, before, after, ink, ops);
    end_goes_on(doc, before, after, ink, ops);
    if !(op is Do) {
        one_step(Set::empty(), set, ops, 0, w, list);
    } else {
        assert(ops[0] is Do);
        let r = route_op(set, Set::empty(), ops[0], w, list);
        assert(r is Ok);
        assert(r->Ok_0.0 == w);
        assert(route_ops(set, Set::empty(), ops, 1, w, r->Ok_0.1) == Ok::<(Walk, Seq<Command>), Failure>(
            (w, r->Ok_0.1),
        ));
    }
}

/// An operator that does not set the fill colour, nor restores one, leaves the tint of fills as it was:
/// so do those that set the stroke colour, that paint, that place text, and that draw a form.
pub proof fn fill_colour_stays(
    doc: PdfDocument,
    before: SourcePage,
    filled: SourcePage,
    after: SourcePage,
    after_filled: SourcePage,
    ink: Seq<char>,
    op: Operator,
)
    requires
        plate_commands(doc, before, ink) is Ok,
        plate_commands(doc, after, ink) is Ok,
        goes_on(before, filled, seq![Operator::Fill]),
        goes_on(before, after, seq![op]),
        goes_on(after, after_filled, seq![Operator::Fill]),
        !colours_fill(op),
        !(op is RestoreState),
    ensures
        exists|t: Option<Scalar>| #[trigger]
            fills_with(doc, before, filled, ink, t) && fills_with(doc, after, after_filled, ink, t),
{
    filled_next(doc, before, filled, ink);
    filled_next(doc, after, after_filled, ink);
    end_after(doc, before, after, ink, op);
}

/// An operator that does not set the stroke colour, nor restores one, leaves the tint of strokes as it
/// was.
pub proof fn stroke_colour_stays(
    doc: PdfDocument,
    before: SourcePage,
    stroked: SourcePage,
    after: SourcePage,
    after_stroked: SourcePage,
    ink: Seq<char>,
    op: Operator,
)
    requires
        plate_commands(doc, before, ink) is Ok,
        plate_commands(doc, after, ink) is Ok,
        goes_on(before, stroked, seq![Operator::Stroke]),
        goes_on(before, after, seq![op]),
        goes_on(after, after_stroked, seq![Operator::Stroke]),
        !colours_stroke(op),
        !(op is RestoreState),
    ensures
        exists|t: Option<Scalar>| #[trigger]
            strokes_with(doc, before, stroked, ink, t) && strokes_with(doc, after, after_stroked, ink, t),
{
    stroked_next(doc, before, stroked, ink);
    stroked_next(doc, after, after_stroked, ink);
    end_after(doc, before, after, ink, op);
}

/// By how much more often the first `k` operators save the graphics state than they restore it.
pub open spec fn saved(ops: Seq<Operator>, k: nat) -> int
    decreases k,
{
    if k == 0 {
        0
    } else {
        saved(ops, (k - 1) as nat) + (match ops[k - 1] {
            Operator::SaveState => 1int,
            Operator::RestoreState => -1int,
            _ => 0int,
        })
    }
}

/// Do the operators restore all that they save, and no more?
pub open spec fn balanced(ops: Seq<Operator>) -> bool {
    saved(ops, ops.len()) == 0 && forall|k: nat| k <= ops.len() ==> #[trigger] saved(ops, k) >= 0
}

/// What was saved below is untouched by operators that restore no more than they save.
proof fn below_stays(set: Setting, ops: Seq<Operator>, i: nat, w: Walk, out: Seq<Command>, base: Seq<Colors>)
    requires
        i <= ops.len(),
        forall|k: nat| k <= ops.len() ==> #[trigger] saved(ops, k) >= 0,
        w.stack.len() == base.len() + 1 + saved(ops, i),
        w.stack.take(base.len() as int) == base,
    ensures
        route_ops(set, Set::empty(), ops, i, w, out) matches Ok((w1, _)) ==> w1.stack.len() == base.len() + 1 + saved(
            ops,
            ops.len(),
        ) && w1.stack.take(base.len() as int) == base,
    decreases ops.len() - i,
{
    if i < ops.len() {
        let op = ops[i as int];
        assert(saved(ops, i) >= 0 && saved(ops, i + 1) >= 0);
        if let Ok((next, more)) = route_op(set, Set::empty(), op, w, out) {
            assert(next.stack.take(base.len() as int) =~= base) by {
                assert forall|j: int| 0 <= j < base.len() implies next.stack[j] == base[j] by {
                    assert(w.stack.take(base.len() as int)[j] == base[j]);
                }
            }
            below_stays(set, ops, i + 1, next, more, base);
        }
    }
}

/// Saving the graphics state and restoring it gives back the colours, whatever is set, painted or drawn
/// in between.
pub proof fn restored_colours_are_those_saved(
    doc: PdfDocument,
    before: SourcePage,
    filled: SourcePage,
    stroked: SourcePage,
    after: SourcePage,
    after_filled: SourcePage,
    after_stroked: SourcePage,
    ink: Seq<char>,
    middle: Seq<Operator>,
)
    requires
        plate_commands(doc, before, ink) is Ok,
        plate_commands(doc, after, ink) is Ok,
        balanced(middle),
        goes_on(before, filled, seq![Operator::Fill]),
        goes_on(before, stroked, seq![Operator::Stroke]),
        goes_on(before, after, seq![Operator::SaveState] + middle + seq![Operator::RestoreState]),
        goes_on(after, after_filled, seq![Operator::Fill]),
        goes_on(after, after_stroked, seq![Operator::Stroke]),
    ensures
        exists|f: Option<Scalar>| #[trigger]
            fills_with(doc, before, filled, ink, f) && fills_with(doc, after, after_filled, ink, f),
        exists|s: Option<Scalar>| #[trigger]
            strokes_with(doc, before, stroked, ink, s) && strokes_with(doc, after, after_stroked, ink, s),
{
    let set = setting(doc, before, ink);
    let w = end_of(doc, before, ink);
    let list = plate_commands(doc, before, ink)->Ok_0;
    let first = seq![Operator::SaveState];
    let last = seq![Operator::RestoreState];
    let ops = first + middle + last;
    page_goes_on(doc, before, after, ink, ops);
    end_goes_on(doc, before, after, ink, ops);
    route_appends(set, Set::empty(), first + middle, last, 0, w, list);
    route_appends(set, Set::empty(), first, middle, 0, w, list);
    one_step(Set::empty(), set, first, 0, w, list);
    let w1 = walk_op(doc, set.spaces, w, Operator::SaveState);
    let list1 = list + commands_of(set, w, Operator::SaveState);
    assert(route_ops(set, Set::empty(), first, 1, w1, list1) == Ok::<(Walk, Seq<Command>), Failure>((w1, list1)));
    assert(w1.stack.take(w.stack.len() as int) =~= w.stack);
    below_stays(set, middle, 0, w1, list1, w.stack);
    let (w2, list2) = route_ops(set, Set::empty(), middle, 0, w1, list1)->Ok_0;
    one_step(Set::empty(), set, last, 0, w2, list2);
    let w3 = walk_op(doc, set.spaces, w2, Operator::RestoreState);
    assert(w2.stack.drop_last() =~= w2.stack.take(w.stack.len() as int));
    assert(w3.stack == w.stack);
    assert(end_of(doc, after, ink).stack == w.stack);
    filled_next(doc, before, filled, ink);
    filled_next(doc, after, after_filled, ink);
    stroked_next(doc, before, stroked, ink);
    stroked_next(doc, after, after_stroked, ink);
}

pub proof fn end_goes_on(doc: PdfDocument, before: SourcePage, after: SourcePage, ink: Seq<char>, more: Seq<Operator>)
    requires
        goes_on(before, after, more),
        plate_commands(doc, before, ink) is Ok,
        plate_commands(doc, after, ink) is Ok,
    ensures
        route_ops(
            setting(doc, before, ink),
            Set::empty(),
            more,
            0,
            end_of(doc, before, ink),
            plate_commands(doc, before, ink)->Ok_0,
        ) is Ok,
        end_of(doc, after, ink) == route_ops(
            setting(doc, before, ink),
            Set::empty(),
            more,
            0,
            end_of(doc, before, ink),
            plate_commands(doc, before, ink)->Ok_0,
        )->Ok_0.0,
        setting(doc, after, ink) == setting(doc, before, ink),
{
    route_appends(
        setting(doc, before, ink),
        Set::empty(),
        before.content.operators(),
        more,
        0,
        page_start(),
        Seq::empty(),
    );
}

/// Nothing is on a plate before a colour is set: the colour at the start of a page touches no ink.
pub proof fn page_starts_without_ink(doc: PdfDocument, page: SourcePage, ink: Seq<char>, op: Operator)
    requires
        color_spaces(doc, page.resources@) is Ok,
        page.content is Operators,
        page.content.operators() == seq![op],
        op is Fill || op is Stroke,
    ensures
        plate_commands(doc, page, ink) == Ok::<Seq<Command>, Failure>(
            seq![Command::Paint { fill: None, stroke: None, even_odd: false }],
        ),
{
    let set = setting(doc, page, ink);
    let none: Seq<Command> = Seq::empty();
    let w = page_start();
    one_step(Set::empty(), set, seq![op], 0, w, none);
    assert(tint(doc, set.spaces, w.stack.last().fill, ink) is None);
    assert(none + commands_of(set, w, op) =~= seq![Command::Paint { fill: None, stroke: None, even_odd: false }]);
}

/// Is the operator one that changes the graphics state, the text state or the path, and nothing else?
pub open spec fn changes_state(op: Operator) -> bool {
    match op {
        Operator::SaveState | Operator::RestoreState | Operator::Cm { .. } => true,
        Operator::SetLineWidth { .. }
        | Operator::SetLineCap { .. }
        | Operator::SetLineJoin { .. }
        | Operator::SetMiterLimit { .. }
        | Operator::SetDash { .. } => true,
        Operator::MoveTo { .. }
        | Operator::LineTo { .. }
        | Operator::CurveTo { .. }
        | Operator::CurveToV { .. }
        | Operator::CurveToY { .. }
        | Operator::Rectangle { .. }
        | Operator::ClosePath => true,
        Operator::ClipNonZero | Operator::ClipEvenOdd => true,
        Operator::BeginText
        | Operator::Tc { .. }
        | Operator::Tw { .. }
        | Operator::Tz { .. }
        | Operator::TL { .. }
        | Operator::Ts { .. }
        | Operator::Tr { .. }
        | Operator::Tf { .. } => true,
        _ => false,
    }
}

/// An operator that changes the graphics state, the text state or the path is handed on as it is.
pub proof fn state_is_handed_on(doc: PdfDocument, before: SourcePage, after: SourcePage, ink: Seq<char>, op: Operator)
    requires
        plate_commands(doc, before, ink) is Ok,
        changes_state(op),
        goes_on(before, after, seq![op]),
    ensures
        adds(doc, before, after, ink, seq![Command::State(op)]),
{
    goes_on_one(doc, before, after, ink, op);
}

/// Shadings, marked content and operators without an effect here paint nothing.
pub proof fn others_paint_nothing(doc: PdfDocument, before: SourcePage, after: SourcePage, ink: Seq<char>, op: Operator)
    requires
        plate_commands(doc, before, ink) is Ok,
        op is PaintShading || op is BeginMarkedContentDict || op is EndText || op is Other,
        goes_on(before, after, seq![op]),
    ensures
        adds(doc, before, after, ink, Seq::empty()),
{
    goes_on_one(doc, before, after, ink, op);
}

/// Is the operator one that places text?
pub open spec fn places_text(op: Operator) -> bool {
    op is Td || op is TD || op is Tm || op is TStar
}

/// Is the operator one that shows text?
pub open spec fn shows_text(op: Operator) -> bool {
    op is Tj || op is TJ || op is Quote || op is DoubleQuote
}

/// Outside a text object no text is placed or shown.
pub proof fn no_text_outside_text_objects(
    doc: PdfDocument,
    before: SourcePage,
    ended: SourcePage,
    after: SourcePage,
    ink: Seq<char>,
    op: Operator,
)
    requires
        plate_commands(doc, before, ink) is Ok,
        places_text(op) || shows_text(op),
        goes_on(before, ended, seq![Operator::EndText]),
        goes_on(ended, after, seq![op]),
    ensures
        adds(doc, ended, after, ink, Seq::empty()),
{
    goes_on_one(doc, before, ended, ink, Operator::EndText);
    end_after(doc, before, ended, ink, Operator::EndText);
    goes_on_one(doc, ended, after, ink, op);
}

/// Inside a text object text is placed as the operator says.
pub proof fn text_is_placed_inside_text_objects(
    doc: PdfDocument,
    before: SourcePage,
    begun: SourcePage,
    after: SourcePage,
    ink: Seq<char>,
    op: Operator,
)
    requires
        plate_commands(doc, before, ink) is Ok,
        places_text(op),
        goes_on(before, begun, seq![Operator::BeginText]),
        goes_on(begun, after, seq![op]),
    ensures
        adds(
            doc,
            begun,
            after,
            ink,
            seq![
                if op is TStar {
                    Command::NextLine
                } else {
                    Command::State(op)
                },
            ],
        ),
{
    goes_on_one(doc, before, begun, ink, Operator::BeginText);
    end_after(doc, before, begun, ink, Operator::BeginText);
    goes_on_one(doc, begun, after, ink, op);
}

/// Are `shown` the commands by which an operator shows its text with the given tint?
pub open spec fn text_shown(op: Operator, t: Option<Scalar>, shown: Seq<Command>) -> bool {
    match op {
        Operator::Tj { text } => shown == seq![Command::Show { text: text@, tint: t }],
        Operator::Quote { text } => shown == seq![Command::NextLine, Command::Show { text: text@, tint: t }],
        Operator::DoubleQuote { word_space, char_space, text } => shown == seq![
            Command::Spacing { word_space, char_space },
            Command::NextLine,
            Command::Show { text: text@, tint: t },
        ],
        Operator::TJ { array } => {
            &&& shown.len() == array@.len() + 2
            &&& shown[0] == Command::BeginRun
            &&& shown.last() == Command::EndRun
            &&& forall|i: int|
                0 <= i < array@.len() ==> #[trigger] shown[i + 1] == (match array@[i] {
                    TextElement::String(text) => Command::Show { text: text@, tint: t },
                    TextElement::Offset(offset) => Command::Shift(offset),
                })
        },
        _ => false,
    }
}

proof fn run_shown(array: Seq<TextElement>, t: Option<Scalar>, k: nat)
    requires
        k <= array.len(),
    ensures
        run_commands(array, t, k).len() == k + 1,
        run_commands(array, t, k)[0] == Command::BeginRun,
        forall|i: int|
            0 <= i < k ==> #[trigger] run_commands(array, t, k)[i + 1] == (match array[i] {
                TextElement::String(text) => Command::Show { text: text@, tint: t },
                TextElement::Offset(offset) => Command::Shift(offset),
            }),
    decreases k,
{
    if k > 0 {
        run_shown(array, t, (k - 1) as nat);
        let before = run_commands(array, t, (k - 1) as nat);
        assert forall|i: int| 0 <= i < k implies #[trigger] run_commands(array, t, k)[i + 1] == (match array[i] {
            TextElement::String(text) => Command::Show { text: text@, tint: t },
            TextElement::Offset(offset) => Command::Shift(offset),
        }) by {
            if i < k - 1 {
                assert(before[i + 1] == run_commands(array, t, k)[i + 1]);
            }
        }
    }
}

/// Text is shown in the fill colour, but for text of rendering mode three, which is invisible: a text
/// operator inside a text object gives its commands with the tint that a fill would have, or with none.
pub proof fn text_shows_in_the_fill_colour(
    doc: PdfDocument,
    before: SourcePage,
    filled: SourcePage,
    moded: SourcePage,
    begun: SourcePage,
    after: SourcePage,
    ink: Seq<char>,
    mode: u8,
    op: Operator,
)
    requires
        plate_commands(doc, before, ink) is Ok,
        shows_text(op),
        goes_on(before, filled, seq![Operator::Fill]),
        goes_on(before, moded, seq![Operator::Tr { render: mode }]),
        goes_on(moded, begun, seq![Operator::BeginText]),
        goes_on(begun, after, seq![op]),
    ensures
        exists|t: Option<Scalar>, shown: Seq<Command>|
            {
                &&& #[trigger] fills_with(doc, before, filled, ink, t)
                &&& #[trigger] adds(doc, begun, after, ink, shown)
                &&& text_shown(
                    op,
                    if mode == 3 {
                        None
                    } else {
                        t
                    },
                    shown,
                )
            },
{
    let set = setting(doc, before, ink);
    let w = end_of(doc, before, ink);
    let tr = Operator::Tr { render: mode };
    filled_next(doc, before, filled, ink);
    goes_on_one(doc, before, moded, ink, tr);
    end_after(doc, before, moded, ink, tr);
    goes_on_one(doc, moded, begun, ink, Operator::BeginText);
    end_after(doc, moded, begun, ink, Operator::BeginText);
    goes_on_one(doc, begun, after, ink, op);
    let w2 = end_of(doc, begun, ink);
    let t = fill_tint(set, w);
    let shown = commands_of(set, w2, op);
    assert(fill_tint(set, w2) == t);
    assert(fills_with(doc, before, filled, ink, t));
    assert(adds(doc, begun, after, ink, shown));
    if let Operator::TJ { array } = op {
        let u = text_tint(set, w2);
        run_shown(array@, u, array@.len());
        let run = run_commands(array@, u, array@.len());
        assert forall|i: int| 0 <= i < array@.len() implies #[trigger] shown[i + 1] == (match array@[i] {
            TextElement::String(text) => Command::Show { text: text@, tint: u },
            TextElement::Offset(offset) => Command::Shift(offset),
        }) by {
            assert(run[i + 1] == shown[i + 1]);
        }
    }
}

/// What the dictionary under a key of the resources has under a name.
pub open spec fn in_resources(doc: PdfDocument, resources: Obj, key: Seq<char>, name: Seq<char>) -> Option<Obj> {
    match resources {
        Obj::Dictionary(d) => match dict_get(d, key) {
            Some(Obj::Dictionary(e)) => dict_get(e, name),
            Some(Obj::Reference(id, _)) => match doc.lookup(id) {
                Some(Obj::Dictionary(e)) => dict_get(e, name),
                _ => None,
            },
            _ => None,
        },
        _ => None,
    }
}

/// A graphics state dictionary that the resources have under the name is applied.
pub proof fn graphics_state_is_applied(
    doc: PdfDocument,
    before: SourcePage,
    after: SourcePage,
    ink: Seq<char>,
    op: Operator,
    o: Obj,
)
    requires
        plate_commands(doc, before, ink) is Ok,
        op is SetExtGState,
        in_resources(doc, before.resources@, "ExtGState"@, op->SetExtGState_dict_name@) == Some(o),
        goes_on(before, after, seq![op]),
    ensures
        adds(doc, before, after, ink, seq![Command::ExtGState(Some(o))]),
{
    goes_on_one(doc, before, after, ink, op);
}

/// At the start of a page text is visible, no text object is open, and there is nothing to restore:
/// text in the colour that was set is shown with its tint, and a restore leaves the colour as it is.
pub proof fn page_starts_plain(
    doc: PdfDocument,
    page: SourcePage,
    restored: SourcePage,
    shown: SourcePage,
    ink: Seq<char>,
    set: Operator,
    name: Seq<char>,
    v: Seq<Scalar>,
    text: Vec<u8>,
)
    requires
        color_spaces(doc, page.resources@) is Ok,
        device_fill(set, name, v),
        page.content is Operators && restored.content is Operators && shown.content is Operators,
        restored.resources@ == page.resources@ && shown.resources@ == page.resources@,
        page.content.operators() == seq![set, Operator::BeginText, (Operator::Tj { text })],
        restored.content.operators() == seq![set, Operator::RestoreState, Operator::Fill],
        shown.content.operators() == seq![(Operator::Tj { text })],
    ensures
        exists|t: Option<Scalar>|
            {
                &&& #[trigger] right_tint(doc, page_spaces(doc, page), name, v, ink, t)
                &&& plate_commands(doc, page, ink) == Ok::<Seq<Command>, Failure>(
                    seq![
                        Command::State(set),
                        Command::State(Operator::BeginText),
                        Command::Show { text: text@, tint: t },
                    ],
                )
                &&& plate_commands(doc, restored, ink) == Ok::<Seq<Command>, Failure>(
                    seq![
                        Command::State(set),
                        Command::State(Operator::RestoreState),
                        Command::Paint { fill: t, stroke: None, even_odd: false },
                    ],
                )
            },
        plate_commands(doc, shown, ink) == Ok::<Seq<Command>, Failure>(Seq::empty()),
{
    let inside = setting(doc, page, ink);
    let spaces = inside.spaces;
    let none: Seq<Command> = Seq::empty();
    let w = page_start();
    let show = Operator::Tj { text };
    let t = tint(doc, spaces, Paint { space: name, components: v }, ink);
    tint_is_right(doc, spaces, name, v, ink);
    let a = seq![set, Operator::BeginText, show];
    let w1 = walk_op(doc, spaces, w, set);
    let w2 = walk_op(doc, spaces, w1, Operator::BeginText);
    let l1 = none + commands_of(inside, w, set);
    let l2 = l1 + commands_of(inside, w1, Operator::BeginText);
    one_step(Set::empty(), inside, a, 0, w, none);
    one_step(Set::empty(), inside, a, 1, w1, l1);
    one_step(Set::empty(), inside, a, 2, w2, l2);
    assert(l2 + commands_of(inside, w2, show) =~= seq![
        Command::State(set),
        Command::State(Operator::BeginText),
        Command::Show { text: text@, tint: t },
    ]);
    let b = seq![set, Operator::RestoreState, Operator::Fill];
    let w3 = walk_op(doc, spaces, w1, Operator::RestoreState);
    let l3 = l1 + commands_of(inside, w1, Operator::RestoreState);
    one_step(Set::empty(), inside, b, 0, w, none);
    one_step(Set::empty(), inside, b, 1, w1, l1);
    one_step(Set::empty(), inside, b, 2, w3, l3);
    assert(w3 == w1);
    assert(l3 + commands_of(inside, w3, Operator::Fill) =~= seq![
        Command::State(set),
        Command::State(Operator::RestoreState),
        Command::Paint { fill: t, stroke: None, even_odd: false },
    ]);
    let c = seq![show];
    one_step(Set::empty(), inside, c, 0, w, none);
    assert(none + commands_of(inside, w, show) =~= none);
}

/// A page whose content cannot be read has no plate, and neither has one whose colour spaces are
/// missing.
pub proof fn unreadable_pages_have_no_plate(doc: PdfDocument, page: SourcePage, ink: Seq<char>)
    ensures
        color_spaces(doc, page.resources@) is Ok && page.content is Undecodable ==> plate_commands(doc, page, ink) == Err::<
            Seq<Command>,
            Failure,
        >(Failure::UndecodableStream),
        color_spaces(doc, page.resources@) is Ok && page.content is Unparsable ==> plate_commands(doc, page, ink) == Err::<
            Seq<Command>,
            Failure,
        >(Failure::UnparsableContent),
        page.resources@ matches Obj::Dictionary(d) ==> (dict_get(d, "ColorSpace"@) matches Some(Obj::Reference(id, _))
            ==> doc.lookup(id) is None ==> plate_commands(doc, page, ink) == Err::<Seq<Command>, Failure>(
            Failure::ObjectNotFound(id),
        )),
{
}

/// A plate can be had of a page that is there, of a size that can be drawn on: with an area, and with
/// rows of less than two to the power of thirty-one bytes.
pub proof fn where_a_plate_can_be_had(doc: PdfDocument, n: nat, ink: Seq<char>, width: u32, height: u32)
    ensures
        n >= doc.page_seq().len() ==> plate_plan(doc, n, ink, width, height) == Err::<Seq<Command>, Failure>(
            Failure::PageNotFound(n),
        ),
        n < doc.page_seq().len() && (width == 0 || height == 0 || width * 4 > 0x7fff_ffff) ==> plate_plan(
            doc,
            n,
            ink,
            width,
            height,
        ) == Err::<Seq<Command>, Failure>(Failure::InvalidPdf("Failed to create separation pixmap"@)),
        n < doc.page_seq().len() && width > 0 && height > 0 && width * 4 <= 0x7fff_ffff ==> plate_plan(
            doc,
            n,
            ink,
            width,
            height,
        ) == plate_commands(doc, doc.page_seq()[n as int], ink),
{
}

/// An empty plate is free of ink everywhere.
pub proof fn empty_plates_are_free_of_ink(n: nat, i: int)
    ensures
        zero_bytes(n).len() == n,
        0 <= i < n ==> zero_bytes(n)[i] == 0,
{
}

/// The commands that are handed out mean what they say.
pub proof fn commands_mean_what_they_say<'a>(
    op: &'a Operator,
    text: &'a Vec<u8>,
    a: Option<Scalar>,
    b: Option<Scalar>,
    even_odd: bool,
    x: Scalar,
    y: Scalar,
    o: &'a Object,
    m: Vec<Object>,
)
    ensures
        PlateCommand::State(op)@ == Command::State(*op),
        (PlateCommand::Paint { fill: a, stroke: b, even_odd })@ == (Command::Paint { fill: a, stroke: b, even_odd }),
        (PlateCommand::Show { text, tint: a })@ == (Command::Show { text: text@, tint: a }),
        PlateCommand::BeginRun@ == Command::BeginRun,
        PlateCommand::Shift(x)@ == Command::Shift(x),
        PlateCommand::EndRun@ == Command::EndRun,
        PlateCommand::NextLine@ == Command::NextLine,
        (PlateCommand::Spacing { word_space: x, char_space: y })@ == (Command::Spacing { word_space: x, char_space: y }),
        PlateCommand::ExtGState(Some(o))@ == Command::ExtGState(Some(o@)),
        PlateCommand::ExtGState(None)@ == Command::ExtGState(None),
        PlateCommand::BeginForm(m)@ == Command::BeginForm(views(m@)),
        PlateCommand::EndForm@ == Command::EndForm,
{
}

/// Only painting with a tint, and showing text with one, puts ink on a plate.
pub proof fn what_puts_ink_on_a_plate(a: Scalar, even_odd: bool, text: Seq<u8>, t: Option<Scalar>)
    ensures
        !inkless(Command::Paint { fill: Some(a), stroke: t, even_odd }),
        !inkless(Command::Paint { fill: t, stroke: Some(a), even_odd }),
        inkless(Command::Paint { fill: None, stroke: None, even_odd }),
        !inkless(Command::Show { text, tint: Some(a) }),
        inkless(Command::Show { text, tint: None }),
{
}

} // verus!
