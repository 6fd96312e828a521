//! The canonical form of an object, by which equal objects are found: a notation with the keys of
//! dictionaries in order. What would blur where a part of it ends is escaped, so that objects of the
//! same form are written alike.

use vstd::prelude::*;
use vstd::utf8::encode_utf8;
use crate::object::{array_view, views, Dict, Entries, Obj, Object};
use crate::text::{decimal, push_bytes, push_decimal, push_signed, push_str, signed_decimal};
use super::serialize::{hex, hex_digit};

verus! {

/// Must a byte of a name be escaped? A space ends a name.
pub open spec fn ends_name(b: u8) -> bool {
    b == 32 || b == 35
}

/// Must a byte of a number be escaped? A space ends a number, and no number reads like the beginning
/// of something else, nor like the end of a reference or of an array.
pub open spec fn ends_number(b: u8) -> bool {
    ends_name(b) || b == 40 || b == 47 || b == 60 || b == 82 || b == 91 || b == 93
}

/// A byte of a name or a number, as it is or as a number sign with two digits.
pub open spec fn plain_byte(b: u8, number: bool) -> Seq<u8> {
    if ends_name(b) || (number && ends_number(b)) {
        seq![35u8, hex_digit((b / 16) as u8), hex_digit((b % 16) as u8)]
    } else {
        seq![b]
    }
}

/// The bytes of a name or a number.
pub open spec fn plain_bytes(s: Seq<u8>, number: bool) -> Seq<u8>
    decreases s.len(),
{
    if s.len() == 0 {
        Seq::empty()
    } else {
        plain_byte(s[0], number) + plain_bytes(s.skip(1), number)
    }
}

/// A byte of a string, with a backslash before it where it would end the string or is one itself.
pub open spec fn quoted_byte(b: u8) -> Seq<u8> {
    if b == 41 || b == 92 {
        seq![92u8, b]
    } else {
        seq![b]
    }
}

/// The bytes of a string between its parentheses.
pub open spec fn quoted_bytes(s: Seq<u8>) -> Seq<u8>
    decreases s.len(),
{
    if s.len() == 0 {
        Seq::empty()
    } else {
        quoted_byte(s[0]) + quoted_bytes(s.skip(1))
    }
}

/// The generation of a reference; it is left out where it is zero.
pub open spec fn generation(gen: u16) -> Seq<u8> {
    if gen == 0 {
        Seq::empty()
    } else {
        decimal(gen as nat)
    }
}

/// The canonical form of an object.
pub open spec fn canon(o: Obj) -> Seq<u8> {
    match o {
        Obj::Stream(d, data) => canon_dict(d) + (encode_utf8("stream"@) + data),
        _ => canon_part(o),
    }
}

/// The canonical form of an object inside another. A stream has the number of its bytes before them.
pub open spec fn canon_part(o: Obj) -> Seq<u8>
    decreases o, 0nat, 0nat,
{
    match o {
        Obj::Null => encode_utf8("null"@),
        Obj::Boolean(b) => if b {
            encode_utf8("true"@)
        } else {
            encode_utf8("false"@)
        },
        Obj::Integer(i) => signed_decimal(i as int),
        Obj::Real(t) => plain_bytes(encode_utf8(t), true),
        Obj::String(s) => encode_utf8("("@) + (quoted_bytes(s) + encode_utf8(")"@)),
        Obj::Name(n) => encode_utf8("/"@) + plain_bytes(encode_utf8(n), false),
        Obj::Array(items) => encode_utf8("["@) + (canon_items(items, 0) + encode_utf8("]"@)),
        Obj::Reference(id, gen) => decimal(id) + (encode_utf8(" R"@) + generation(gen)),
        Obj::Dictionary(d) => canon_dict(d),
        Obj::Stream(d, data) => canon_dict(d) + (encode_utf8("stream"@) + (decimal(data.len()) + (encode_utf8(
            " "@,
        ) + data))),
    }
}

/// The canonical forms of the items from position `k` on, each with a space behind it.
pub open spec fn canon_items(items: Seq<Obj>, k: nat) -> Seq<u8>
    decreases items, 0nat, items.len() - k,
{
    if k >= items.len() {
        Seq::empty()
    } else {
        canon_part(items[k as int]) + (encode_utf8(" "@) + canon_items(items, k + 1))
    }
}

/// The canonical form of a dictionary.
pub open spec fn canon_dict(d: Entries) -> Seq<u8>
    decreases d, 1nat, 0nat,
{
    encode_utf8("<<"@) + (canon_entries(d, 0) + encode_utf8(">>"@))
}

/// The keys from position `k` on with the canonical forms of their values, each with a space behind it.
pub open spec fn canon_entries(d: Entries, k: nat) -> Seq<u8>
    decreases d, 0nat, d.len() - k,
{
    if k >= d.len() {
        Seq::empty()
    } else {
        encode_utf8("/"@) + (plain_bytes(encode_utf8(d[k as int].0), false) + (encode_utf8(" "@) + (canon_part(
            d[k as int].1,
        ) + (encode_utf8(" "@) + canon_entries(d, k + 1)))))
    }
}

/// The canonical form of an object.
pub fn canonical_bytes(obj: &Object) -> (r: Vec<u8>)
    ensures
        r@ == canon(obj@),
{
    let mut out: Vec<u8> = Vec::new();
    match obj {
        Object::Stream { dict, data } => {
            push_canon_dict(dict, &mut out);
            push_str(&mut out, "stream");
            push_bytes(&mut out, data.as_slice());
        },
        _ => push_canon(obj, &mut out),
    }
    assert(out@ =~= canon(obj@));
    out
}

fn push_plain(bytes: &[u8], number: bool, out: &mut Vec<u8>)
    ensures
        final(out)@ == old(out)@ + plain_bytes(bytes@, number),
{
    let ghost start = out@;
    let mut i: usize = 0;
    assert(bytes@.skip(0) =~= bytes@);
    while i < bytes.len()
        invariant
            i <= bytes@.len(),
            out@ + plain_bytes(bytes@.skip(i as int), number) == start + plain_bytes(bytes@, number),
        decreases bytes@.len() - i,
    {
        let ghost before = out@;
        let b = bytes[i];
        if b == 32 || b == 35 || (number && (b == 40 || b == 47 || b == 60 || b == 82 || b == 91 || b == 93)) {
            out.push(35);
            out.push(hex(b / 16));
            out.push(hex(b % 16));
        } else {
            out.push(b);
        }
        proof {
            let t = bytes@.skip(i as int);
            assert(t[0] == b);
            assert(t.skip(1) =~= bytes@.skip(i + 1));
            assert(out@ =~= before + plain_byte(b, number));
            assert(before + plain_bytes(t, number) =~= out@ + plain_bytes(t.skip(1), number));
        }
        i += 1;
    }
    assert(plain_bytes(bytes@.skip(i as int), number) =~= Seq::empty());
    assert(out@ =~= start + plain_bytes(bytes@, number));
}

fn push_quoted(bytes: &[u8], out: &mut Vec<u8>)
    ensures
        final(out)@ == old(out)@ + quoted_bytes(bytes@),
{
    let ghost start = out@;
    let mut i: usize = 0;
    assert(bytes@.skip(0) =~= bytes@);
    while i < bytes.len()
        invariant
            i <= bytes@.len(),
            out@ + quoted_bytes(bytes@.skip(i as int)) == start + quoted_bytes(bytes@),
        decreases bytes@.len() - i,
    {
        let ghost before = out@;
        let b = bytes[i];
        if b == 41 || b == 92 {
            out.push(92);
        }
        out.push(b);
        proof {
            let t = bytes@.skip(i as int);
            assert(t[0] == b);
            assert(t.skip(1) =~= bytes@.skip(i + 1));
            assert(out@ =~= before + quoted_byte(b));
            assert(before + quoted_bytes(t) =~= out@ + quoted_bytes(t.skip(1)));
        }
        i += 1;
    }
    assert(quoted_bytes(bytes@.skip(i as int)) =~= Seq::empty());
    assert(out@ =~= start + quoted_bytes(bytes@));
}

fn push_canon(obj: &Object, out: &mut Vec<u8>)
    ensures
        final(out)@ == old(out)@ + canon_part(obj@),
    decreases obj@, 0nat,
{
    broadcast use array_view;

    let ghost start = out@;
    match obj {
        Object::Null => push_str(out, "null"),
        Object::Boolean(b) => {
            if *b {
                push_str(out, "true");
            } else {
                push_str(out, "false");
            }
        },
        Object::Integer(i) => push_signed(out, *i),
        Object::Real(t) => push_plain(t.as_str().as_bytes(), true, out),
        Object::String(s) => {
            push_str(out, "(");
            push_quoted(s.as_slice(), out);
            push_str(out, ")");
            assert(out@ =~= start + canon_part(obj@));
        },
        Object::Name(n) => {
            push_str(out, "/");
            push_plain(n.as_str().as_bytes(), false, out);
            assert(out@ =~= start + canon_part(obj@));
        },
        Object::Array(a) => {
            push_str(out, "[");
            let ghost items = views(a@);
            let ghost head = out@;
            let mut i: usize = 0;
            while i < a.len()
                invariant
                    i <= a@.len(),
                    items == views(a@),
                    obj@ == Obj::Array(items),
                    out@ + canon_items(items, i as nat) == head + canon_items(items, 0),
                decreases a@.len() - i,
            {
                assert(decreases_to!(obj@ => obj@->Array_0));
                assert(decreases_to!(items => items[i as int]));
                let ghost before = out@;
                push_canon(&a[i], out);
                push_str(out, " ");
                assert(before + canon_items(items, i as nat) =~= out@ + canon_items(items, (i + 1) as nat));
                i += 1;
            }
            assert(out@ =~= head + canon_items(items, 0));
            push_str(out, "]");
            assert(out@ =~= start + canon_part(obj@));
        },
        Object::Reference(r) => {
            push_decimal(out, r.id as u64);
            push_str(out, " R");
            if r.gen != 0 {
                push_decimal(out, r.gen as u64);
            }
            assert(out@ =~= start + canon_part(obj@));
        },
        Object::Dictionary(d) => {
            assert(decreases_to!(obj@ => obj@->Dictionary_0));
            push_canon_dict(d, out);
        },
        Object::Stream { dict, data } => {
            assert(decreases_to!(obj@ => obj@->Stream_0));
            push_canon_dict(dict, out);
            push_str(out, "stream");
            push_decimal(out, data.len() as u64);
            push_str(out, " ");
            push_bytes(out, data.as_slice());
            assert(out@ =~= start + canon_part(obj@));
        },
    }
}

proof fn entry_joins(s: Seq<u8>, a: Seq<u8>, b: Seq<u8>, c: Seq<u8>, d: Seq<u8>, e: Seq<u8>)
    ensures
        s + (a + (b + (c + (d + (c + e))))) == s + a + b + c + d + c + e,
{
    assert(s + (a + (b + (c + (d + (c + e))))) =~= s + a + b + c + d + c + e);
}

fn push_canon_dict(d: &Dict, out: &mut Vec<u8>)
    ensures
        final(out)@ == old(out)@ + canon_dict(d@),
    decreases d@, 1nat,
{
    let ghost start = out@;
    push_str(out, "<<");
    let n = d.len();
    let ghost head = out@;
    let mut i: usize = 0;
    while i < n
        invariant
            i <= n == d@.len(),
            out@ + canon_entries(d@, i as nat) == head + canon_entries(d@, 0),
        decreases n - i,
    {
        assert(decreases_to!(d@ => d@[i as int]));
        assert(decreases_to!(d@[i as int] => d@[i as int].1));
        let ghost before = out@;
        push_str(out, "/");
        push_plain(d.key_at(i).as_str().as_bytes(), false, out);
        push_str(out, " ");
        push_canon(d.value_at(i), out);
        push_str(out, " ");
        proof {
            entry_joins(
                before,
                encode_utf8("/"@),
                plain_bytes(encode_utf8(d@[i as int].0), false),
                encode_utf8(" "@),
                canon_part(d@[i as int].1),
                canon_entries(d@, (i + 1) as nat),
            );
        }
        i += 1;
    }
    assert(out@ =~= head + canon_entries(d@, 0));
    push_str(out, ">>");
    assert(out@ =~= start + canon_dict(d@));
}

} // verus!
