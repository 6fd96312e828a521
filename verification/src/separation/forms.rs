//! What the drawing of a form paints, and where the colour spaces of content come from.

use vstd::prelude::*;
use vstd::utf8::encode_utf8;
use crate::document::{resolve, Content, Failure, Operator, PdfDocument, Scalar, SourcePage};
use crate::object::{dict_get, dict_get_insert, dict_has, dict_insert, dict_sorted, obj_dict, Entries, Obj};
use crate::text::{bytes_lt_irreflexive, bytes_lt_total, bytes_lt_transitive, encode_utf8_injective, key_lt};
use super::color::{tint, Paint};
use super::inks::{form_content, form_resources, named_form, open_form, xobjects};
use super::plate_commands;
use super::route::{
    commands_of, draw, fill_tint, form_matrix, form_start, route_op, route_ops, stroke_tint, walk_op, Command, Setting,
    Walk,
};
use super::shown::{
    adds, end_of, fills_with, filled_next, goes_on, in_resources, one_step, page_goes_on, page_spaces, right_tint,
    sets_fill, setting, stroked_next, strokes_with, tint_is_right,
};
use super::spaces::{color_spaces, overlay, resolved_entries};

verus! {

/// Does no key stand twice?
pub open spec fn each_key_once(d: Entries) -> bool {
    forall|i: int, j: int| 0 <= i < j < d.len() ==> (#[trigger] d[i]).0 != (#[trigger] d[j]).0
}

proof fn key_at(d: Entries, i: int)
    requires
        each_key_once(d),
        0 <= i < d.len(),
    ensures
        dict_get(d, d[i].0) == Some(d[i].1),
    decreases d.len(),
{
    if i > 0 {
        assert(d[0].0 != d[i].0);
        let r = d.skip(1);
        assert forall|a: int, b: int| 0 <= a < b < r.len() implies (#[trigger] r[a]).0 != (#[trigger] r[b]).0 by {
            assert(d[a + 1].0 != d[b + 1].0);
        }
        key_at(r, i - 1);
        assert(r[i - 1] == d[i]);
    }
}

proof fn key_nowhere(d: Entries, key: Seq<char>)
    requires
        forall|i: int| 0 <= i < d.len() ==> (#[trigger] d[i]).0 != key,
    ensures
        dict_get(d, key) is None,
    decreases d.len(),
{
    if d.len() > 0 {
        assert(d[0].0 != key);
        let r = d.skip(1);
        assert forall|i: int| 0 <= i < r.len() implies (#[trigger] r[i]).0 != key by {
            assert(d[i + 1].0 != key);
        }
        key_nowhere(r, key);
    }
}

proof fn resolved_get(doc: PdfDocument, d: Entries, k: nat, key: Seq<char>)
    requires
        k <= d.len(),
        each_key_once(d),
    ensures
        forall|i: int|
            0 <= i < k && (#[trigger] d[i]).0 == key ==> dict_get(resolved_entries(doc, d, k), key) == resolve(
                doc,
                d[i].1,
            ),
        (forall|i: int| 0 <= i < k ==> (#[trigger] d[i]).0 != key) ==> dict_get(resolved_entries(doc, d, k), key) is None,
    decreases k,
{
    if k > 0 {
        resolved_get(doc, d, (k - 1) as nat, key);
        let before = resolved_entries(doc, d, (k - 1) as nat);
        if let Some(o) = resolve(doc, d[k - 1].1) {
            dict_get_insert(before, d[k - 1].0, o, key);
        }
        assert forall|i: int| 0 <= i < k && (#[trigger] d[i]).0 == key implies dict_get(
            resolved_entries(doc, d, k),
            key,
        ) == resolve(doc, d[i].1) by {
            if i < k - 1 {
                assert(d[i].0 != d[k - 1].0);
            } else {
                assert forall|j: int| 0 <= j < k - 1 implies (#[trigger] d[j]).0 != key by {
                    assert(d[j].0 != d[k - 1].0);
                }
            }
        }
    } else {
        let none: Entries = Seq::empty();
        assert(dict_get(none, key) is None);
    }
}

/// The colour spaces of resources are those in their dictionary of colour spaces: each name has what
/// stands there, or what is referred to there. Resources without that dictionary have none.
pub proof fn spaces_come_from_the_resources(doc: PdfDocument, d: Entries, cd: Entries, key: Seq<char>)
    requires
        each_key_once(cd),
    ensures
        match dict_get(d, "ColorSpace"@) {
            None => color_spaces(doc, Obj::Dictionary(d)) == Ok::<Entries, Failure>(Seq::empty()),
            Some(o) => o == Obj::Dictionary(cd) || (o is Reference && doc.lookup(o->Reference_0) == Some(
                Obj::Dictionary(cd),
            )) ==> {
                let spaces = color_spaces(doc, Obj::Dictionary(d));
                &&& spaces is Ok
                &&& dict_get(spaces->Ok_0, key) == (match dict_get(cd, key) {
                    Some(Obj::Reference(id, _)) => doc.lookup(id),
                    o => o,
                })
            },
        },
{
    resolved_get(doc, cd, cd.len(), key);
    if exists|i: int| 0 <= i < cd.len() && (#[trigger] cd[i]).0 == key {
        let i = choose|i: int| 0 <= i < cd.len() && (#[trigger] cd[i]).0 == key;
        key_at(cd, i);
    } else {
        key_nowhere(cd, key);
    }
}

proof fn overlay_get(a: Entries, b: Entries, k: nat, key: Seq<char>)
    requires
        k <= b.len(),
        each_key_once(b),
    ensures
        forall|i: int| 0 <= i < k && (#[trigger] b[i]).0 == key ==> dict_get(overlay(a, b, k), key) == Some(b[i].1),
        (forall|i: int| 0 <= i < k ==> (#[trigger] b[i]).0 != key) ==> dict_get(overlay(a, b, k), key) == dict_get(a, key),
    decreases k,
{
    if k > 0 {
        overlay_get(a, b, (k - 1) as nat, key);
        let before = overlay(a, b, (k - 1) as nat);
        dict_get_insert(before, b[k - 1].0, b[k - 1].1, key);
        assert forall|i: int| 0 <= i < k && (#[trigger] b[i]).0 == key implies dict_get(overlay(a, b, k), key) == Some(
            b[i].1,
        ) by {
            if i < k - 1 {
                assert(b[i].0 != b[k - 1].0);
            }
        }
    }
}

/// A form's own colour spaces take precedence over those where it is drawn, which stay in force else.
pub proof fn own_spaces_take_precedence(outer: Entries, own: Entries, key: Seq<char>)
    requires
        each_key_once(own),
    ensures
        dict_get(overlay(outer, own, own.len()), key) == (match dict_get(own, key) {
            Some(o) => Some(o),
            None => dict_get(outer, key),
        }),
{
    overlay_get(outer, own, own.len(), key);
    if exists|i: int| 0 <= i < own.len() && (#[trigger] own[i]).0 == key {
        let i = choose|i: int| 0 <= i < own.len() && (#[trigger] own[i]).0 == key;
        key_at(own, i);
    } else {
        key_nowhere(own, key);
    }
}

proof fn insert_keeps_order(d: Entries, key: Seq<char>, v: Obj)
    requires
        dict_sorted(d),
    ensures
        dict_sorted(dict_insert(d, key, v)),
        forall|i: int|
            0 <= i < dict_insert(d, key, v).len() ==> (#[trigger] dict_insert(d, key, v)[i]).0 == key || exists|j: int|
                0 <= j < d.len() && (#[trigger] d[j]).0 == dict_insert(d, key, v)[i].0,
    decreases d.len(),
{
    let e = dict_insert(d, key, v);
    if d.len() > 0 {
        let k = encode_utf8(key);
        let first = encode_utf8(d[0].0);
        if d[0].0 == key {
            assert forall|i: int, j: int| 0 <= i < j < e.len() implies key_lt(#[trigger] e[i].0, #[trigger] e[j].0) by {
                assert(e[i].0 == d[i].0 && e[j].0 == d[j].0);
            }
            assert forall|i: int| 0 <= i < e.len() implies (#[trigger] e[i]).0 == key || exists|j: int|
                0 <= j < d.len() && (#[trigger] d[j]).0 == e[i].0 by {
                assert(d[i].0 == e[i].0);
            }
        } else if key_lt(key, d[0].0) {
            assert forall|i: int, j: int| 0 <= i < j < e.len() implies key_lt(#[trigger] e[i].0, #[trigger] e[j].0) by {
                assert(e[j] == d[j - 1]);
                if i > 0 {
                    assert(e[i] == d[i - 1]);
                } else if j > 1 {
                    assert(key_lt(d[0].0, d[j - 1].0));
                    bytes_lt_transitive(k, first, encode_utf8(d[j - 1].0));
                }
            }
            assert forall|i: int| 0 <= i < e.len() implies (#[trigger] e[i]).0 == key || exists|j: int|
                0 <= j < d.len() && (#[trigger] d[j]).0 == e[i].0 by {
                if i > 0 {
                    assert(e[i] == d[i - 1]);
                }
            }
        } else {
            let r = d.skip(1);
            assert forall|i: int, j: int| 0 <= i < j < r.len() implies key_lt(#[trigger] r[i].0, #[trigger] r[j].0) by {
                assert(r[i] == d[i + 1] && r[j] == d[j + 1]);
            }
            insert_keeps_order(r, key, v);
            let q = dict_insert(r, key, v);
            if k == first {
                encode_utf8_injective(key, d[0].0);
            }
            bytes_lt_total(k, first);
            assert(key_lt(d[0].0, key));
            assert forall|i: int| 0 <= i < q.len() implies key_lt(d[0].0, (#[trigger] q[i]).0) by {
                if q[i].0 != key {
                    let j = choose|j: int| 0 <= j < r.len() && (#[trigger] r[j]).0 == q[i].0;
                    assert(r[j] == d[j + 1]);
                }
            }
            assert forall|i: int, j: int| 0 <= i < j < e.len() implies key_lt(#[trigger] e[i].0, #[trigger] e[j].0) by {
                assert(e[j] == q[j - 1]);
                if i > 0 {
                    assert(e[i] == q[i - 1]);
                }
            }
            assert forall|i: int| 0 <= i < e.len() implies (#[trigger] e[i]).0 == key || exists|j: int|
                0 <= j < d.len() && (#[trigger] d[j]).0 == e[i].0 by {
                if i > 0 {
                    assert(e[i] == q[i - 1]);
                    if q[i - 1].0 != key {
                        let j = choose|j: int| 0 <= j < r.len() && (#[trigger] r[j]).0 == q[i - 1].0;
                        assert(d[j + 1] == r[j]);
                    }
                } else {
                    assert(e[0] == d[0]);
                }
            }
        }
    }
}

proof fn insert_again(d: Entries, i: int)
    requires
        dict_sorted(d),
        0 <= i < d.len(),
    ensures
        dict_insert(d, d[i].0, d[i].1) == d,
    decreases d.len(),
{
    let key = d[i].0;
    if i == 0 {
        assert(d.update(0, d[0]) =~= d);
    } else {
        assert(key_lt(d[0].0, d[i].0));
        bytes_lt_irreflexive(encode_utf8(key));
        if key_lt(key, d[0].0) {
            bytes_lt_transitive(encode_utf8(key), encode_utf8(d[0].0), encode_utf8(key));
        }
        let r = d.skip(1);
        assert forall|a: int, b: int| 0 <= a < b < r.len() implies key_lt(#[trigger] r[a].0, #[trigger] r[b].0) by {
            assert(r[a] == d[a + 1] && r[b] == d[b + 1]);
        }
        insert_again(r, i - 1);
        assert(r[i - 1] == d[i]);
        assert(seq![d[0]] + r =~= d);
    }
}

proof fn spaces_sorted(doc: PdfDocument, d: Entries, k: nat)
    ensures
        dict_sorted(resolved_entries(doc, d, k)),
    decreases k,
{
    if k > 0 {
        spaces_sorted(doc, d, (k - 1) as nat);
        if let Some(o) = resolve(doc, d[k - 1].1) {
            insert_keeps_order(resolved_entries(doc, d, (k - 1) as nat), d[k - 1].0, o);
        }
    }
}

proof fn overlay_again(d: Entries, k: nat)
    requires
        dict_sorted(d),
        k <= d.len(),
    ensures
        overlay(d, d, k) == d,
    decreases k,
{
    if k > 0 {
        overlay_again(d, (k - 1) as nat);
        insert_again(d, k - 1);
    }
}

/// Spaces laid over themselves are the same.
proof fn same_spaces(doc: PdfDocument, resources: Obj)
    requires
        color_spaces(doc, resources) is Ok,
    ensures
        ({
            let own = color_spaces(doc, resources)->Ok_0;
            overlay(own, own, own.len()) == own
        }),
{
    let own = color_spaces(doc, resources)->Ok_0;
    assert(dict_sorted(own)) by {
        if let Obj::Dictionary(d) = resources {
            if let Some(o) = dict_get(d, "ColorSpace"@) {
                if let Some(cs) = resolve(doc, o) {
                    if let Some(cd) = obj_dict(cs) {
                        spaces_sorted(doc, cd, cd.len());
                    }
                }
            }
        }
    }
    overlay_again(own, own.len());
}

/// Does the name stand for the form of number `id` with the dictionary `form` and the content `ops`?
pub open spec fn form_named(
    doc: PdfDocument,
    resources: Obj,
    name: Seq<char>,
    id: nat,
    form: Entries,
    ops: Seq<Operator>,
) -> bool {
    &&& in_resources(doc, resources, "XObject"@, name) matches Some(Obj::Reference(n, _)) && n == id
    &&& doc.lookup(id) matches Some(Obj::Stream(d, _)) && d == form
    &&& dict_get(form, "Subtype"@) == Some(Obj::Name("Form"@))
    &&& doc.content_of(id) is Operators
    &&& doc.content_of(id).operators() == ops
}

/// Is `m` the matrix of the form: its six numbers, or those of the identity where it has none?
pub open spec fn matrix_of(form: Entries, m: Seq<Obj>) -> bool {
    &&& m.len() == 6
    &&& !dict_has(form, "Matrix"@) ==> m == seq![
        Obj::Integer(1),
        Obj::Integer(0),
        Obj::Integer(0),
        Obj::Integer(1),
        Obj::Integer(0),
        Obj::Integer(0),
    ]
    &&& dict_get(form, "Matrix"@) matches Some(Obj::Array(a)) ==> (a.len() == 6 && forall|i: int|
        0 <= i < 6 ==> (#[trigger] a[i]) is Integer || a[i] is Real) ==> m == a
}

proof fn matrix_is_right(form: Entries)
    ensures
        matrix_of(form, form_matrix(form)),
{
    let m = form_matrix(form);
    if !dict_has(form, "Matrix"@) {
        assert(m =~= seq![
            Obj::Integer(1),
            Obj::Integer(0),
            Obj::Integer(0),
            Obj::Integer(1),
            Obj::Integer(0),
            Obj::Integer(0),
        ]);
    }
    if let Some(Obj::Array(a)) = dict_get(form, "Matrix"@) {
        if a.len() == 6 && forall|i: int| 0 <= i < 6 ==> (#[trigger] a[i]) is Integer || a[i] is Real {
            assert forall|i: int| 0 <= i < 6 implies m[i] == a[i] by {
                assert(a[i] is Integer || a[i] is Real);
            }
            assert(m =~= a);
        }
    }
}

/// Going on with the drawing of a form goes through its content, from the current colours on.
proof fn form_goes_on(
    doc: PdfDocument,
    before: SourcePage,
    after: SourcePage,
    ink: Seq<char>,
    op: Operator,
    id: nat,
    form: Entries,
    ops: Seq<Operator>,
    inner: Obj,
)
    requires
        plate_commands(doc, before, ink) is Ok,
        op is Do,
        form_named(doc, before.resources@, op->Do_name@, id, form, ops),
        form_resources(doc, form, before.resources@) == Ok::<Obj, Failure>(inner),
        color_spaces(doc, inner) is Ok,
        goes_on(before, after, seq![op]),
    ensures
        ({
            let set = setting(doc, before, ink);
            let own = color_spaces(doc, inner)->Ok_0;
            let w = end_of(doc, before, ink);
            let list = plate_commands(doc, before, ink)->Ok_0;
            &&& w.stack.len() > 0
            &&& plate_commands(doc, after, ink) == (match route_ops(
                Setting { resources: inner, spaces: overlay(set.spaces, own, own.len()), ..set },
                Set::<usize>::empty().insert(id as usize),
                ops,
                0,
                form_start(w.stack.last()),
                list.push(Command::BeginForm(form_matrix(form))),
            ) {
                Err(e) => Err(e),
                Ok((_, more)) => Ok(more.push(Command::EndForm)),
            })
        }),
{
    let set = setting(doc, before, ink);
    let w = end_of(doc, before, ink);
    let list = plate_commands(doc, before, ink)->Ok_0;
    let more = seq![op];
    let none = Set::<usize>::empty();
    let name = op->Do_name@;
    page_goes_on(doc, before, after, ink, more);
    assert(more[0] is Do);
    assert(xobjects(doc, set.resources) is Some);
    assert(named_form(doc, set.resources, name) == Some((Some(id), form)));
    let own = color_spaces(doc, inner)->Ok_0;
    assert(form_content(doc, Some(id)) == doc.content_of(id));
    let spaces = overlay(set.spaces, own, own.len());
    assert(open_form(doc, (Some(id), form), set.resources, set.spaces) == Ok::<(Content, Obj, Entries), Failure>(
        (doc.content_of(id), inner, spaces),
    ));
    let r = route_op(set, none, op, w, list);
    let d = draw(set, none, name, w.stack.last(), list);
    assert(!none.contains(id as usize));
    if d is Ok {
        assert(r == Ok::<(Walk, Seq<Command>), Failure>((w, d->Ok_0)));
        assert(route_ops(set, none, more, 1, w, d->Ok_0) == Ok::<(Walk, Seq<Command>), Failure>((w, d->Ok_0)));
    }
}

/// A form takes over the colours that are current where it is drawn: a form without resources of its
/// own whose content is a single fill, or a single stroke, paints what the page would paint there.
pub proof fn form_takes_over_the_colours(
    doc: PdfDocument,
    before: SourcePage,
    filled: SourcePage,
    stroked: SourcePage,
    after: SourcePage,
    ink: Seq<char>,
    op: Operator,
    id: nat,
    form: Entries,
    painting: Operator,
)
    requires
        plate_commands(doc, before, ink) is Ok,
        op is Do,
        painting is Fill || painting is Stroke,
        form_named(doc, before.resources@, op->Do_name@, id, form, seq![painting]),
        !dict_has(form, "Resources"@),
        goes_on(before, filled, seq![Operator::Fill]),
        goes_on(before, stroked, seq![Operator::Stroke]),
        goes_on(before, after, seq![op]),
    ensures
        exists|m: Seq<Obj>, t: Option<Scalar>|
            #![trigger matrix_of(form, m), fills_with(doc, before, filled, ink, t)]
            #![trigger matrix_of(form, m), strokes_with(doc, before, stroked, ink, t)]
            {
                &&& matrix_of(form, m)
                &&& painting is Fill ==> fills_with(doc, before, filled, ink, t) && adds(
                    doc,
                    before,
                    after,
                    ink,
                    seq![
                        Command::BeginForm(m),
                        Command::Paint { fill: t, stroke: None, even_odd: false },
                        Command::EndForm,
                    ],
                )
                &&& painting is Stroke ==> strokes_with(doc, before, stroked, ink, t) && adds(
                    doc,
                    before,
                    after,
                    ink,
                    seq![
                        Command::BeginForm(m),
                        Command::Paint { fill: None, stroke: t, even_odd: false },
                        Command::EndForm,
                    ],
                )
            },
{
    let set = setting(doc, before, ink);
    let w = end_of(doc, before, ink);
    let list = plate_commands(doc, before, ink)->Ok_0;
    let inner = before.resources@;
    let m = form_matrix(form);
    let ops = seq![painting];
    matrix_is_right(form);
    filled_next(doc, before, filled, ink);
    stroked_next(doc, before, stroked, ink);
    form_goes_on(doc, before, after, ink, op, id, form, ops, inner);
    let own = set.spaces;
    let inside = Setting { spaces: overlay(own, own, own.len()), ..set };
    let start = form_start(w.stack.last());
    let out = list.push(Command::BeginForm(m));
    let active = Set::<usize>::empty().insert(id as usize);
    one_step(active, inside, ops, 0, start, out);
    same_spaces(doc, inner);
    let paint = commands_of(inside, start, painting);
    let t = if painting is Fill {
        fill_tint(set, w)
    } else {
        stroke_tint(set, w)
    };
    assert((out + paint).push(Command::EndForm) =~= list + (seq![Command::BeginForm(m)] + paint).push(
        Command::EndForm,
    ));
    assert((seq![Command::BeginForm(m)] + paint).push(Command::EndForm) =~= seq![
        Command::BeginForm(m),
        paint[0],
        Command::EndForm,
    ]);
}

/// A form paints with its own colour spaces: where its content sets a colour by components in a space
/// and fills, the tint is that of the components in the space that its own resources have under the
/// name, or, where they have none, those where it is drawn.
pub proof fn form_paints_with_its_own_spaces(
    doc: PdfDocument,
    before: SourcePage,
    after: SourcePage,
    ink: Seq<char>,
    op: Operator,
    id: nat,
    form: Entries,
    own: Entries,
    enter: Operator,
    set: Operator,
    v: Seq<Scalar>,
)
    requires
        plate_commands(doc, before, ink) is Ok,
        op is Do,
        enter is SetFillColorSpace,
        sets_fill(set, v),
        form_named(doc, before.resources@, op->Do_name@, id, form, seq![enter, set, Operator::Fill]),
        dict_get(form, "Resources"@) matches Some(r) && (r is Dictionary && color_spaces(doc, r) == Ok::<Entries, Failure>(
            own,
        ) || r is Reference && doc.lookup(r->Reference_0) is Some && color_spaces(doc, doc.lookup(r->Reference_0)->0)
            == Ok::<Entries, Failure>(own)),
        each_key_once(own),
        goes_on(before, after, seq![op]),
    ensures
        exists|spaces: Entries, m: Seq<Obj>, t: Option<Scalar>|
            #![trigger right_tint(doc, spaces, enter->SetFillColorSpace_name@, v, ink, t), matrix_of(form, m)]
            {
                &&& forall|key: Seq<char>| #[trigger]
                    dict_get(spaces, key) == (match dict_get(own, key) {
                        Some(o) => Some(o),
                        None => dict_get(page_spaces(doc, before), key),
                    })
                &&& right_tint(doc, spaces, enter->SetFillColorSpace_name@, v, ink, t)
                &&& matrix_of(form, m)
                &&& adds(
                    doc,
                    before,
                    after,
                    ink,
                    seq![
                        Command::BeginForm(m),
                        Command::State(enter),
                        Command::State(set),
                        Command::Paint { fill: t, stroke: None, even_odd: false },
                        Command::EndForm,
                    ],
                )
            },
{
    let outer = setting(doc, before, ink);
    let w = end_of(doc, before, ink);
    let list = plate_commands(doc, before, ink)->Ok_0;
    let name = enter->SetFillColorSpace_name@;
    let r = dict_get(form, "Resources"@)->0;
    let inner = if r is Dictionary {
        r
    } else {
        doc.lookup(r->Reference_0)->0
    };
    let m = form_matrix(form);
    let ops = seq![enter, set, Operator::Fill];
    matrix_is_right(form);
    form_goes_on(doc, before, after, ink, op, id, form, ops, inner);
    let spaces = overlay(outer.spaces, own, own.len());
    let inside = Setting { resources: inner, spaces, ..outer };
    let start = form_start(w.stack.last());
    let out = list.push(Command::BeginForm(m));
    let active = Set::<usize>::empty().insert(id as usize);
    let w1 = walk_op(doc, spaces, start, enter);
    let w2 = walk_op(doc, spaces, w1, set);
    let out1 = out + commands_of(inside, start, enter);
    let out2 = out1 + commands_of(inside, w1, set);
    one_step(active, inside, ops, 0, start, out);
    one_step(active, inside, ops, 1, w1, out1);
    one_step(active, inside, ops, 2, w2, out2);
    let t = tint(doc, spaces, Paint { space: name, components: v }, ink);
    tint_is_right(doc, spaces, name, v, ink);
    assert forall|key: Seq<char>| #[trigger] dict_get(spaces, key) == (match dict_get(own, key) {
        Some(o) => Some(o),
        None => dict_get(page_spaces(doc, before), key),
    }) by {
        own_spaces_take_precedence(outer.spaces, own, key);
    }
    let paint = Command::Paint { fill: t, stroke: None, even_odd: false };
    assert((out2 + seq![paint]).push(Command::EndForm) =~= list + seq![
        Command::BeginForm(m),
        Command::State(enter),
        Command::State(set),
        paint,
        Command::EndForm,
    ]);
}

/// Text in a form is visible again: a form without resources of its own that shows text inside a text
/// object shows it in the fill colour, whatever the rendering mode where the form is drawn.
pub proof fn form_text_is_visible(
    doc: PdfDocument,
    before: SourcePage,
    filled: SourcePage,
    after: SourcePage,
    ink: Seq<char>,
    op: Operator,
    id: nat,
    form: Entries,
    text: Vec<u8>,
)
    requires
        plate_commands(doc, before, ink) is Ok,
        op is Do,
        form_named(
            doc,
            before.resources@,
            op->Do_name@,
            id,
            form,
            seq![Operator::BeginText, (Operator::Tj { text })],
        ),
        !dict_has(form, "Resources"@),
        goes_on(before, filled, seq![Operator::Fill]),
        goes_on(before, after, seq![op]),
    ensures
        exists|m: Seq<Obj>, t: Option<Scalar>|
            {
                &&& #[trigger] matrix_of(form, m)
                &&& #[trigger] fills_with(doc, before, filled, ink, t)
                &&& adds(
                    doc,
                    before,
                    after,
                    ink,
                    seq![
                        Command::BeginForm(m),
                        Command::State(Operator::BeginText),
                        Command::Show { text: text@, tint: t },
                        Command::EndForm,
                    ],
                )
            },
{
    let set = setting(doc, before, ink);
    let w = end_of(doc, before, ink);
    let list = plate_commands(doc, before, ink)->Ok_0;
    let inner = before.resources@;
    let m = form_matrix(form);
    let show = Operator::Tj { text };
    let ops = seq![Operator::BeginText, show];
    matrix_is_right(form);
    filled_next(doc, before, filled, ink);
    form_goes_on(doc, before, after, ink, op, id, form, ops, inner);
    let own = set.spaces;
    let inside = Setting { spaces: overlay(own, own, own.len()), ..set };
    same_spaces(doc, inner);
    let start = form_start(w.stack.last());
    let out = list.push(Command::BeginForm(m));
    let active = Set::<usize>::empty().insert(id as usize);
    let w1 = walk_op(doc, inside.spaces, start, Operator::BeginText);
    let out1 = out + commands_of(inside, start, Operator::BeginText);
    one_step(active, inside, ops, 0, start, out);
    one_step(active, inside, ops, 1, w1, out1);
    let t = fill_tint(set, w);
    assert(fill_tint(inside, w1) == t);
    assert(fills_with(doc, before, filled, ink, t));
    let shown = Command::Show { text: text@, tint: t };
    assert((out1 + seq![shown]).push(Command::EndForm) =~= list + seq![
        Command::BeginForm(m),
        Command::State(Operator::BeginText),
        shown,
        Command::EndForm,
    ]);
}

/// A form is not drawn inside itself: a form without resources of its own whose content draws it once
/// more paints nothing.
pub proof fn form_is_not_drawn_inside_itself(
    doc: PdfDocument,
    before: SourcePage,
    after: SourcePage,
    ink: Seq<char>,
    op: Operator,
    id: nat,
    form: Entries,
)
    requires
        plate_commands(doc, before, ink) is Ok,
        op is Do,
        form_named(doc, before.resources@, op->Do_name@, id, form, seq![op]),
        !dict_has(form, "Resources"@),
        goes_on(before, after, seq![op]),
    ensures
        exists|m: Seq<Obj>| #[trigger]
            matrix_of(form, m) && adds(doc, before, after, ink, seq![Command::BeginForm(m), Command::EndForm]),
{
    let set = setting(doc, before, ink);
    let w = end_of(doc, before, ink);
    let list = plate_commands(doc, before, ink)->Ok_0;
    let inner = before.resources@;
    let m = form_matrix(form);
    let ops = seq![op];
    matrix_is_right(form);
    form_goes_on(doc, before, after, ink, op, id, form, ops, inner);
    let own = set.spaces;
    let inside = Setting { spaces: overlay(own, own, own.len()), ..set };
    let start = form_start(w.stack.last());
    let out = list.push(Command::BeginForm(m));
    let active = Set::<usize>::empty().insert(id as usize);
    let name = op->Do_name@;
    assert(xobjects(doc, set.resources) is Some);
    assert(named_form(doc, set.resources, name) == Some((Some(id), form)));
    assert(active.contains(id as usize));
    assert(draw(inside, active, name, start.stack.last(), out) == Ok::<Seq<Command>, Failure>(out));
    assert(ops[0] == op);
    assert(route_op(inside, active, ops[0], start, out) == Ok::<(Walk, Seq<Command>), Failure>((start, out)));
    assert(route_ops(inside, active, ops, 1, start, out) == Ok::<(Walk, Seq<Command>), Failure>((start, out)));
    assert(route_ops(inside, active, ops, 0, start, out) == Ok::<(Walk, Seq<Command>), Failure>((start, out)));
    assert(out.push(Command::EndForm) =~= list + seq![Command::BeginForm(m), Command::EndForm]);
}

/// A name that stands for no form, such as that of an image, paints nothing.
pub proof fn images_paint_nothing(doc: PdfDocument, before: SourcePage, after: SourcePage, ink: Seq<char>, op: Operator)
    requires
        plate_commands(doc, before, ink) is Ok,
        op is Do,
        ({
            let o = in_resources(doc, before.resources@, "XObject"@, op->Do_name@);
            let target = match o {
                Some(Obj::Reference(id, _)) => doc.lookup(id),
                o => o,
            };
            match target {
                Some(Obj::Stream(d, _)) => dict_get(d, "Subtype"@) == Some(Obj::Name("Image"@)),
                _ => false,
            }
        }),
        goes_on(before, after, seq![op]),
    ensures
        adds(doc, before, after, ink, Seq::empty()),
{
    let set = setting(doc, before, ink);
    let w = end_of(doc, before, ink);
    let list = plate_commands(doc, before, ink)->Ok_0;
    let more = seq![op];
    let none = Set::<usize>::empty();
    let name = op->Do_name@;
    reveal_strlit("Image");
    reveal_strlit("Form");
    assert("Image"@.len() == 5 && "Form"@.len() == 4);
    page_goes_on(doc, before, after, ink, more);
    assert(xobjects(doc, set.resources) is Some);
    assert(named_form(doc, set.resources, name) is None);
    assert(draw(set, none, name, w.stack.last(), list) == Ok::<Seq<Command>, Failure>(list));
    assert(more[0] == op);
    assert(route_op(set, none, more[0], w, list) == Ok::<(Walk, Seq<Command>), Failure>((w, list)));
    assert(route_ops(set, none, more, 1, w, list) == Ok::<(Walk, Seq<Command>), Failure>((w, list)));
    assert(list + Seq::<Command>::empty() =~= list);
}

/// A page that draws a form which cannot be read has no plate, and what is told of it is what ails the
/// form.
pub proof fn unreadable_forms_are_told(
    doc: PdfDocument,
    before: SourcePage,
    after: SourcePage,
    ink: Seq<char>,
    op: Operator,
    id: nat,
    form: Entries,
)
    requires
        plate_commands(doc, before, ink) is Ok,
        op is Do,
        in_resources(doc, before.resources@, "XObject"@, op->Do_name@) matches Some(Obj::Reference(n, _)) && n == id,
        doc.lookup(id) matches Some(Obj::Stream(d, _)) && d == form,
        dict_get(form, "Subtype"@) == Some(Obj::Name("Form"@)),
        !dict_has(form, "Resources"@),
        goes_on(before, after, seq![op]),
    ensures
        doc.content_of(id) is Undecodable ==> plate_commands(doc, after, ink) == Err::<Seq<Command>, Failure>(
            Failure::UndecodableStream,
        ),
        doc.content_of(id) is Unparsable ==> plate_commands(doc, after, ink) == Err::<Seq<Command>, Failure>(
            Failure::UnparsableContent,
        ),
{
    let set = setting(doc, before, ink);
    let w = end_of(doc, before, ink);
    let list = plate_commands(doc, before, ink)->Ok_0;
    let more = seq![op];
    let none = Set::<usize>::empty();
    let name = op->Do_name@;
    page_goes_on(doc, before, after, ink, more);
    assert(xobjects(doc, set.resources) is Some);
    assert(named_form(doc, set.resources, name) == Some((Some(id), form)));
    assert(color_spaces(doc, set.resources) is Ok);
    if !(doc.content_of(id) is Operators) {
        assert(draw(set, none, name, w.stack.last(), list) is Err);
        assert(more[0] == op);
        assert(route_op(set, none, more[0], w, list) is Err);
        assert(route_ops(set, none, more, 0, w, list) is Err);
    }
}

} // verus!
