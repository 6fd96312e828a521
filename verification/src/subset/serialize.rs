//! Writing the objects out as a complete file.

use vstd::prelude::*;
use vstd::utf8::encode_utf8;
use crate::object::{array_view, views, Dict, Entries, Obj, Object};
use crate::text::{
    decimal, padded_decimal, push_bytes, push_decimal, push_padded, push_signed, push_str, signed_decimal,
};

verus! {

/// A byte of a literal string, escaped where it has a meaning of its own there.
pub open spec fn string_byte(b: u8) -> Seq<u8> {
    if b == 40 || b == 41 || b == 92 {
        seq![92u8, b]
    } else if b == 13 {
        seq![92u8, 114u8]
    } else if b == 10 {
        seq![92u8, 110u8]
    } else {
        seq![b]
    }
}

/// May a byte stand in a name as it is?
pub open spec fn is_regular(b: u8) -> bool {
    33 <= b <= 126 && b != 35 && b != 37 && b != 40 && b != 41 && b != 47 && b != 60 && b != 62 && b != 91
        && b != 93 && b != 123 && b != 125
}

/// A hexadecimal digit.
pub open spec fn hex_digit(n: u8) -> u8 {
    if n < 10 {
        (48 + n) as u8
    } else {
        (55 + n) as u8
    }
}

/// A byte of a name, as it is or as a number sign with two digits.
pub open spec fn name_byte(b: u8) -> Seq<u8> {
    if is_regular(b) {
        seq![b]
    } else {
        seq![35u8, hex_digit((b / 16) as u8), hex_digit((b % 16) as u8)]
    }
}

/// The bytes of a literal string between its parentheses.
pub open spec fn string_bytes(s: Seq<u8>) -> Seq<u8>
    decreases s.len(),
{
    if s.len() == 0 {
        Seq::empty()
    } else {
        string_bytes(s.drop_last()) + string_byte(s.last())
    }
}

/// The bytes of a name after its slash.
pub open spec fn name_bytes(s: Seq<u8>) -> Seq<u8>
    decreases s.len(),
{
    if s.len() == 0 {
        Seq::empty()
    } else {
        name_bytes(s.drop_last()) + name_byte(s.last())
    }
}

/// The notation of a name.
pub open spec fn name_text(n: Seq<char>) -> Seq<u8> {
    encode_utf8("/"@) + name_bytes(encode_utf8(n))
}

/// The notation of an object. The length that a stream states is that of its data.
pub open spec fn object_bytes(o: Obj) -> Seq<u8>
    decreases o, 0nat,
{
    match o {
        Obj::Null => encode_utf8("null"@),
        Obj::Boolean(b) => if b {
            encode_utf8("true"@)
        } else {
            encode_utf8("false"@)
        },
        Obj::Integer(i) => signed_decimal(i as int),
        Obj::Real(t) => encode_utf8(t),
        Obj::String(s) => encode_utf8("("@) + string_bytes(s) + encode_utf8(")"@),
        Obj::Name(n) => name_text(n),
        Obj::Array(items) => encode_utf8("["@) + items_bytes(items, items.len()) + encode_utf8(" ]"@),
        Obj::Reference(id, gen) => decimal(id) + encode_utf8(" "@) + decimal(gen as nat) + encode_utf8(" R"@),
        Obj::Dictionary(d) => encode_utf8("<<"@) + entries_bytes(d, d.len()) + encode_utf8(" >>"@),
        Obj::Stream(d, data) => encode_utf8("<<"@) + stream_entries_bytes(d, d.len()) + encode_utf8(
            " /Length "@,
        ) + decimal(data.len()) + encode_utf8(" >>\nstream\n"@) + data + encode_utf8("\nendstream"@),
    }
}

/// The notation of the first `k` items, each with a space before it.
pub open spec fn items_bytes(items: Seq<Obj>, k: nat) -> Seq<u8>
    decreases items, k,
    when k <= items.len()
{
    if k == 0 {
        Seq::empty()
    } else {
        items_bytes(items, (k - 1) as nat) + encode_utf8(" "@) + object_bytes(items[k - 1])
    }
}

/// The notation of the first `k` entries of a dictionary, each with a space before it.
pub open spec fn entries_bytes(d: Entries, k: nat) -> Seq<u8>
    decreases d, k,
    when k <= d.len()
{
    if k == 0 {
        Seq::empty()
    } else {
        entries_bytes(d, (k - 1) as nat) + encode_utf8(" "@) + name_text(d[k - 1].0) + encode_utf8(" "@)
            + object_bytes(d[k - 1].1)
    }
}

/// The notation of the first `k` entries of a stream's dictionary without the length.
pub open spec fn stream_entries_bytes(d: Entries, k: nat) -> Seq<u8>
    decreases d, k,
    when k <= d.len()
{
    if k == 0 {
        Seq::empty()
    } else if d[k - 1].0 == "Length"@ {
        stream_entries_bytes(d, (k - 1) as nat)
    } else {
        stream_entries_bytes(d, (k - 1) as nat) + encode_utf8(" "@) + name_text(d[k - 1].0) + encode_utf8(
            " "@,
        ) + object_bytes(d[k - 1].1)
    }
}

/// The notation of an object with its number.
pub open spec fn indirect_bytes(id: nat, o: Obj) -> Seq<u8> {
    decimal(id) + encode_utf8(" 0 obj\n"@) + object_bytes(o) + encode_utf8("\nendobj\n"@)
}

/// How a file begins.
pub open spec fn header() -> Seq<u8> {
    encode_utf8("%PDF-1.7\n%"@) + seq![0xE2u8, 0xE3u8, 0xCFu8, 0xD3u8] + encode_utf8("\n"@)
}

/// The beginning of a file with the first `k` objects.
pub open spec fn body_bytes(objects: Seq<Obj>, k: nat) -> Seq<u8>
    decreases k,
{
    if k == 0 {
        header()
    } else {
        body_bytes(objects, (k - 1) as nat) + indirect_bytes(k, objects[k - 1])
    }
}

/// Where the object of number `id` stands in a file.
pub open spec fn offset(objects: Seq<Obj>, id: nat) -> nat {
    body_bytes(objects, (id - 1) as nat).len()
}

/// The entries of the cross-reference table for the first `k` objects.
pub open spec fn xref_entries(objects: Seq<Obj>, k: nat) -> Seq<u8>
    decreases k,
{
    if k == 0 {
        encode_utf8("0000000000 65535 f \r\n"@)
    } else {
        xref_entries(objects, (k - 1) as nat) + padded_decimal(offset(objects, k), 10) + encode_utf8(
            " 00000 n \r\n"@,
        )
    }
}

/// The cross-reference table.
pub open spec fn xref_bytes(objects: Seq<Obj>) -> Seq<u8> {
    encode_utf8("xref\n0 "@) + decimal(objects.len() + 1) + encode_utf8("\n"@) + xref_entries(
        objects,
        objects.len(),
    )
}

/// The trailer.
pub open spec fn trailer_bytes(count: nat, root: nat, info: Option<nat>) -> Seq<u8> {
    encode_utf8("trailer\n<< /Size "@) + decimal(count + 1) + encode_utf8(" /Root "@) + decimal(root)
        + encode_utf8(" 0 R"@) + (match info {
        Some(i) => encode_utf8(" /Info "@) + decimal(i) + encode_utf8(" 0 R"@),
        None => Seq::empty(),
    }) + encode_utf8(" >>\n"@)
}

/// A complete file of the given objects, numbered from one on.
pub open spec fn pdf_bytes(objects: Seq<Obj>, root: nat, info: Option<nat>) -> Seq<u8> {
    let body = body_bytes(objects, objects.len());
    body + xref_bytes(objects) + trailer_bytes(objects.len(), root, info) + encode_utf8("startxref\n"@)
        + decimal(body.len()) + encode_utf8("\n%%EOF\n"@)
}

proof fn body_prefix(objects: Seq<Obj>, j: nat, k: nat)
    requires
        j <= k,
    ensures
        body_bytes(objects, j).len() <= body_bytes(objects, k).len(),
        body_bytes(objects, k).take(body_bytes(objects, j).len() as int) == body_bytes(objects, j),
    decreases k - j,
{
    let bj = body_bytes(objects, j);
    if j == k {
        assert(bj.take(bj.len() as int) =~= bj);
    } else {
        body_prefix(objects, j, (k - 1) as nat);
        let prev = body_bytes(objects, (k - 1) as nat);
        assert(body_bytes(objects, k).take(bj.len() as int) =~= prev.take(bj.len() as int));
    }
}

/// The cross-reference table is right: at the offset that it states for an object the file holds
/// that object, with its number.
pub proof fn offsets_are_right(objects: Seq<Obj>, root: nat, info: Option<nat>, id: nat)
    requires
        1 <= id <= objects.len(),
    ensures
        ({
            let file = pdf_bytes(objects, root, info);
            let object = indirect_bytes(id, objects[id - 1]);
            &&& offset(objects, id) + object.len() <= file.len()
            &&& file.subrange(
                offset(objects, id) as int,
                (offset(objects, id) + object.len()) as int,
            ) == object
        }),
{
    let n = objects.len();
    let file = pdf_bytes(objects, root, info);
    let object = indirect_bytes(id, objects[id - 1]);
    let at = offset(objects, id) as int;
    let upto = body_bytes(objects, id);
    assert(upto == body_bytes(objects, (id - 1) as nat) + object);
    body_prefix(objects, id, n);
    let body = body_bytes(objects, n);
    assert(file.take(body.len() as int) =~= body);
    assert(file.take(upto.len() as int) =~= body.take(upto.len() as int));
    assert(file.subrange(at, at + object.len()) =~= file.take(upto.len() as int).subrange(
        at,
        at + object.len(),
    ));
    assert(upto.subrange(at, at + object.len()) =~= object);
}

/// The file's last number is right: it is where the cross-reference table stands.
pub proof fn start_of_table_is_right(objects: Seq<Obj>, root: nat, info: Option<nat>)
    ensures
        ({
            let file = pdf_bytes(objects, root, info);
            let at = body_bytes(objects, objects.len()).len();
            let table = xref_bytes(objects);
            let tail = encode_utf8("startxref\n"@) + decimal(at) + encode_utf8("\n%%EOF\n"@);
            &&& at + table.len() + tail.len() <= file.len()
            &&& file.subrange(at as int, (at + table.len()) as int) == table
            &&& file.subrange(file.len() - tail.len(), file.len() as int) == tail
        }),
{
    let file = pdf_bytes(objects, root, info);
    let at = body_bytes(objects, objects.len()).len();
    let table = xref_bytes(objects);
    let tail = encode_utf8("startxref\n"@) + decimal(at) + encode_utf8("\n%%EOF\n"@);
    assert(file.subrange(at as int, (at + table.len()) as int) =~= table);
    assert(file.subrange(file.len() - tail.len(), file.len() as int) =~= tail);
}

fn push_string(s: &Vec<u8>, out: &mut Vec<u8>)
    ensures
        final(out)@ == old(out)@ + string_bytes(s@),
{
    let ghost start = out@;
    let mut i: usize = 0;
    assert(s@.take(0) =~= Seq::empty());
    assert(out@ =~= start + string_bytes(s@.take(0)));
    while i < s.len()
        invariant
            i <= s@.len(),
            out@ == start + string_bytes(s@.take(i as int)),
        decreases s@.len() - i,
    {
        proof {
            let t = s@.take(i + 1);
            assert(t.drop_last() =~= s@.take(i as int));
            assert(t.last() == s@[i as int]);
        }
        let b = s[i];
        if b == 40 || b == 41 || b == 92 {
            out.push(92);
            out.push(b);
        } else if b == 13 {
            out.push(92);
            out.push(114);
        } else if b == 10 {
            out.push(92);
            out.push(110);
        } else {
            out.push(b);
        }
        i += 1;
        assert(out@ =~= start + string_bytes(s@.take(i as int)));
    }
    assert(s@.take(i as int) =~= s@);
}

/// The hexadecimal digit of a number.
pub fn hex(n: u8) -> (d: u8)
    requires
        n < 16,
    ensures
        d == hex_digit(n),
{
    if n < 10 {
        48 + n
    } else {
        55 + n
    }
}

fn push_name(n: &str, out: &mut Vec<u8>)
    ensures
        final(out)@ == old(out)@ + name_text(n@),
{
    let ghost first = out@;
    push_str(out, "/");
    let ghost start = out@;
    let s = n.as_bytes();
    let mut i: usize = 0;
    assert(s@.take(0) =~= Seq::empty());
    assert(out@ =~= start + name_bytes(s@.take(0)));
    while i < s.len()
        invariant
            i <= s@.len(),
            out@ == start + name_bytes(s@.take(i as int)),
        decreases s@.len() - i,
    {
        proof {
            let t = s@.take(i + 1);
            assert(t.drop_last() =~= s@.take(i as int));
            assert(t.last() == s@[i as int]);
        }
        let b = s[i];
        if 33 <= b && b <= 126 && b != 35 && b != 37 && b != 40 && b != 41 && b != 47 && b != 60 && b != 62
            && b != 91 && b != 93 && b != 123 && b != 125 {
            out.push(b);
        } else {
            out.push(35);
            out.push(hex(b / 16));
            out.push(hex(b % 16));
        }
        i += 1;
        assert(out@ =~= start + name_bytes(s@.take(i as int)));
    }
    assert(s@.take(i as int) =~= s@);
    assert(out@ =~= first + name_text(n@));
}

/// Append the notation of an object.
pub fn push_object(obj: &Object, out: &mut Vec<u8>)
    ensures
        final(out)@ == old(out)@ + object_bytes(obj@),
    decreases obj@, 0nat,
{
    broadcast use array_view;

    let ghost start = out@;
    match obj {
        Object::Null => push_str(out, "null"),
        Object::Boolean(b) => {
            if *b {
                push_str(out, "true");
            } else {
                push_str(out, "false");
            }
        },
        Object::Integer(i) => push_signed(out, *i),
        Object::Real(t) => push_str(out, t.as_str()),
        Object::String(s) => {
            push_str(out, "(");
            push_string(s, out);
            push_str(out, ")");
            assert(out@ =~= start + object_bytes(obj@));
        },
        Object::Name(n) => push_name(n.as_str(), out),
        Object::Array(a) => {
            push_str(out, "[");
            let ghost items = views(a@);
            let mut i: usize = 0;
            assert(out@ =~= start + encode_utf8("["@) + items_bytes(items, 0));
            while i < a.len()
                invariant
                    i <= a@.len(),
                    items == views(a@),
                    obj@ == Obj::Array(items),
                    out@ == start + encode_utf8("["@) + items_bytes(items, i as nat),
                decreases a@.len() - i,
            {
                assert(decreases_to!(obj@ => obj@->Array_0));
                assert(decreases_to!(items => items[i as int]));
                push_str(out, " ");
                push_object(&a[i], out);
                i += 1;
                assert(out@ =~= start + encode_utf8("["@) + items_bytes(items, i as nat));
            }
            push_str(out, " ]");
            assert(out@ =~= start + object_bytes(obj@));
        },
        Object::Reference(r) => {
            push_decimal(out, r.id as u64);
            push_str(out, " ");
            push_decimal(out, r.gen as u64);
            push_str(out, " R");
            assert(out@ =~= start + object_bytes(obj@));
        },
        Object::Dictionary(d) => {
            assert(decreases_to!(obj@ => obj@->Dictionary_0));
            push_str(out, "<<");
            push_entries(d, out);
            push_str(out, " >>");
            assert(out@ =~= start + object_bytes(obj@));
        },
        Object::Stream { dict, data } => {
            assert(decreases_to!(obj@ => obj@->Stream_0));
            push_str(out, "<<");
            push_stream_entries(dict, out);
            push_str(out, " /Length ");
            push_decimal(out, data.len() as u64);
            push_str(out, " >>\nstream\n");
            push_bytes(out, data.as_slice());
            push_str(out, "\nendstream");
            assert(out@ =~= start + object_bytes(obj@));
        },
    }
}

fn push_entries(d: &Dict, out: &mut Vec<u8>)
    ensures
        final(out)@ == old(out)@ + entries_bytes(d@, d@.len()),
    decreases d@, 1nat,
{
    let ghost start = out@;
    let n = d.len();
    let mut i: usize = 0;
    assert(out@ =~= start + entries_bytes(d@, 0));
    while i < n
        invariant
            i <= n == d@.len(),
            out@ == start + entries_bytes(d@, i as nat),
        decreases n - i,
    {
        assert(decreases_to!(d@ => d@[i as int]));
        assert(decreases_to!(d@[i as int] => d@[i as int].1));
        push_str(out, " ");
        push_name(d.key_at(i).as_str(), out);
        push_str(out, " ");
        push_object(d.value_at(i), out);
        i += 1;
        assert(out@ =~= start + entries_bytes(d@, i as nat));
    }
}

fn push_stream_entries(d: &Dict, out: &mut Vec<u8>)
    ensures
        final(out)@ == old(out)@ + stream_entries_bytes(d@, d@.len()),
    decreases d@, 1nat,
{
    let ghost start = out@;
    let n = d.len();
    let mut i: usize = 0;
    assert(out@ =~= start + stream_entries_bytes(d@, 0));
    while i < n
        invariant
            i <= n == d@.len(),
            out@ == start + stream_entries_bytes(d@, i as nat),
        decreases n - i,
    {
        assert(decreases_to!(d@ => d@[i as int]));
        assert(decreases_to!(d@[i as int] => d@[i as int].1));
        if !crate::text::str_eq(d.key_at(i).as_str(), "Length") {
            push_str(out, " ");
            push_name(d.key_at(i).as_str(), out);
            push_str(out, " ");
            push_object(d.value_at(i), out);
        }
        i += 1;
        assert(out@ =~= start + stream_entries_bytes(d@, i as nat));
    }
}

fn push_trailer(out: &mut Vec<u8>, size: usize, root: usize, info: Option<usize>)
    requires
        size > 0,
    ensures
        final(out)@ == old(out)@ + trailer_bytes(
            (size - 1) as nat,
            root as nat,
            match info {
                Some(i) => Some(i as nat),
                None => None,
            },
        ),
{
    let ghost start = out@;
    push_str(out, "trailer\n<< /Size ");
    push_decimal(out, size as u64);
    push_str(out, " /Root ");
    push_decimal(out, root as u64);
    push_str(out, " 0 R");
    if let Some(i) = info {
        push_str(out, " /Info ");
        push_decimal(out, i as u64);
        push_str(out, " 0 R");
    }
    push_str(out, " >>\n");
    assert(out@ =~= start + trailer_bytes(
        (size - 1) as nat,
        root as nat,
        match info {
            Some(i) => Some(i as nat),
            None => None,
        },
    ));
}

/// A complete file of the given objects, numbered from one on.
pub fn serialize_pdf(objects: &Vec<Object>, root: usize, info: Option<usize>) -> (out: Vec<u8>)
    ensures
        out@ == pdf_bytes(
            views(objects@),
            root as nat,
            match info {
                Some(i) => Some(i as nat),
                None => None,
            },
        ),
{
    let ghost all = views(objects@);
    let mut out: Vec<u8> = Vec::new();
    push_str(&mut out, "%PDF-1.7\n%");
    out.push(0xE2);
    out.push(0xE3);
    out.push(0xCF);
    out.push(0xD3);
    push_str(&mut out, "\n");
    assert(out@ =~= header());

    // One offset more than there are objects: number zero heads the free list.
    let mut offsets: Vec<usize> = Vec::new();
    offsets.push(0);
    let mut i: usize = 0;
    while i < objects.len()
        invariant
            i <= objects@.len(),
            all == views(objects@),
            offsets@.len() == i + 1,
            out@ == body_bytes(all, i as nat),
            forall|j: int| 1 <= j <= i ==> (#[trigger] offsets@[j]) == offset(all, j as nat),
        decreases objects@.len() - i,
    {
        let ghost before = out@;
        offsets.push(out.len());
        push_decimal(&mut out, (i + 1) as u64);
        push_str(&mut out, " 0 obj\n");
        push_object(&objects[i], &mut out);
        push_str(&mut out, "\nendobj\n");
        assert(out@ =~= before + indirect_bytes((i + 1) as nat, all[i as int]));
        i += 1;
    }
    let xref_start = out.len();
    let ghost body = out@;
    push_str(&mut out, "xref\n0 ");
    push_decimal(&mut out, offsets.len() as u64);
    push_str(&mut out, "\n");
    let ghost heading = out@;
    push_str(&mut out, "0000000000 65535 f \r\n");
    let mut k: usize = 0;
    while k < objects.len()
        invariant
            k <= objects@.len(),
            all == views(objects@),
            offsets@.len() == objects@.len() + 1,
            forall|j: int| 1 <= j <= objects@.len() ==> (#[trigger] offsets@[j]) == offset(all, j as nat),
            out@ == heading + xref_entries(all, k as nat),
        decreases objects@.len() - k,
    {
        push_padded(&mut out, offsets[k + 1] as u64, 10);
        push_str(&mut out, " 00000 n \r\n");
        k += 1;
        assert(out@ =~= heading + xref_entries(all, k as nat));
    }
    assert(out@ =~= body + xref_bytes(all));
    push_trailer(&mut out, offsets.len(), root, info);
    push_str(&mut out, "startxref\n");
    push_decimal(&mut out, xref_start as u64);
    push_str(&mut out, "\n%%EOF\n");
    out
}

} // verus!
