//! Reading back what is written: numbers, strings, names, and the parts of a file.

use vstd::prelude::*;
use vstd::utf8::{encode_scalar, encode_utf8};
use crate::object::{Entries, Obj};
use crate::text::{decimal, decimal_text, padded_decimal, signed_decimal, zeros};
use super::serialize::{
    body_bytes, entries_bytes, header, hex_digit, is_regular, items_bytes, name_byte, name_bytes,
    name_text, object_bytes, offset, offsets_are_right, pdf_bytes, string_byte, string_bytes, stream_entries_bytes,
    trailer_bytes, xref_bytes, xref_entries,
};

verus! {

/// The number that decimal digits denote.
pub open spec fn number_read(digits: Seq<u8>) -> nat
    decreases digits.len(),
{
    if digits.len() == 0 {
        0
    } else {
        number_read(digits.drop_last()) * 10 + (digits.last() - 48) as nat
    }
}

/// Are all of them decimal digits?
pub open spec fn all_digits(digits: Seq<u8>) -> bool {
    forall|i: int| 0 <= i < digits.len() ==> 48 <= #[trigger] digits[i] <= 57
}

/// A number reads back as it was: its notation consists of digits, has none too many in front, and
/// denotes it.
pub proof fn decimal_reads_back(n: nat)
    ensures
        number_read(decimal(n)) == n,
        all_digits(decimal(n)),
        decimal(n).len() > 0,
        n > 0 ==> decimal(n)[0] != 48,
        n == 0 ==> decimal(n).len() == 1,
    decreases n,
{
    let d = decimal(n);
    if n >= 10 {
        decimal_reads_back(n / 10);
        let front = decimal(n / 10);
        assert(d.drop_last() =~= front);
        assert forall|i: int| 0 <= i < d.len() implies 48 <= #[trigger] d[i] <= 57 by {
            if i < front.len() {
                assert(d[i] == front[i]);
            }
        }
        assert(d[0] == front[0]);
    } else {
        assert(d.drop_last() =~= Seq::empty());
        assert(number_read(d.drop_last()) == 0);
    }
}

proof fn zeros_read(k: nat, d: Seq<u8>)
    ensures
        number_read(zeros(k) + d) == number_read(d),
        zeros(k).len() == k,
    decreases k + d.len(),
{
    let s = zeros(k) + d;
    if d.len() > 0 {
        zeros_read(k, d.drop_last());
        assert(s.drop_last() =~= zeros(k) + d.drop_last());
        assert(s.last() == d.last());
    } else if k > 0 {
        let none: Seq<u8> = Seq::empty();
        zeros_read((k - 1) as nat, none);
        assert(s.drop_last() =~= zeros((k - 1) as nat) + none);
        assert(s.last() == 48);
        assert(d =~= none);
    } else {
        assert(s =~= d);
    }
}

/// A number written to a width denotes itself, and has that width where it fits.
pub proof fn padded_reads_back(n: nat, width: nat)
    ensures
        number_read(padded_decimal(n, width)) == n,
        decimal(n).len() <= width ==> padded_decimal(n, width).len() == width,
{
    decimal_reads_back(n);
    let d = decimal(n);
    if d.len() < width {
        zeros_read((width - d.len()) as nat, d);
    }
}

/// An integer reads back as it was: a minus sign stands before the digits exactly where it is below
/// zero.
pub proof fn integer_reads_back(i: int)
    ensures
        ({
            let s = signed_decimal(i);
            if i < 0 {
                s.len() > 1 && s[0] == 45 && number_read(s.skip(1)) == -i
            } else {
                s.len() > 0 && s[0] != 45 && number_read(s) == i
            }
        }),
{
    if i < 0 {
        decimal_reads_back((-i) as nat);
        assert(signed_decimal(i).skip(1) =~= decimal((-i) as nat));
    } else {
        decimal_reads_back(i as nat);
    }
}

/// What a literal string holds that begins at position `i`, behind its opening parenthesis: its bytes up
/// to the first closing parenthesis that no backslash stands before, and the position behind that. An
/// end of line that stands there as it is reads as a line feed. None where the string does not end, or
/// another begins inside it.
pub open spec fn string_read(b: Seq<u8>, i: nat) -> Option<(Seq<u8>, nat)>
    decreases b.len() - i,
{
    if i >= b.len() {
        None
    } else if b[i as int] == 41 {
        Some((Seq::empty(), i + 1))
    } else if b[i as int] == 40 {
        None
    } else if b[i as int] == 92 {
        if i + 1 >= b.len() {
            None
        } else {
            let c: u8 = if b[(i + 1) as int] == 110 {
                10
            } else if b[(i + 1) as int] == 114 {
                13
            } else {
                b[(i + 1) as int]
            };
            match string_read(b, i + 2) {
                Some((rest, end)) => Some((seq![c] + rest, end)),
                None => None,
            }
        }
    } else {
        let c: u8 = if b[i as int] == 13 {
            10
        } else {
            b[i as int]
        };
        match string_read(b, i + 1) {
            Some((rest, end)) => Some((seq![c] + rest, end)),
            None => None,
        }
    }
}

proof fn string_from_front(s: Seq<u8>)
    requires
        s.len() > 0,
    ensures
        string_bytes(s) == string_byte(s[0]) + string_bytes(s.skip(1)),
    decreases s.len(),
{
    if s.len() == 1 {
        let none: Seq<u8> = Seq::empty();
        assert(s.drop_last() =~= none);
        assert(s.skip(1) =~= none);
        assert(string_bytes(none) =~= none);
        assert(string_bytes(s) =~= string_byte(s[0]));
        assert(string_byte(s[0]) + string_bytes(s.skip(1)) =~= string_byte(s[0]));
    } else {
        let front = s.drop_last();
        string_from_front(front);
        assert(s.skip(1).drop_last() =~= front.skip(1));
        assert(s.skip(1).last() == s.last());
        assert(front[0] == s[0]);
        assert(string_byte(s[0]) + string_bytes(front.skip(1)) + string_byte(s.last()) =~= string_byte(s[0]) + (
        string_bytes(front.skip(1)) + string_byte(s.last())));
    }
}

proof fn string_reads(before: Seq<u8>, s: Seq<u8>, after: Seq<u8>)
    ensures
        ({
            let b = before + string_bytes(s) + seq![41u8] + after;
            string_read(b, before.len()) == Some((s, before.len() + string_bytes(s).len() + 1))
        }),
    decreases s.len(),
{
    let b = before + string_bytes(s) + seq![41u8] + after;
    if s.len() == 0 {
        assert(b[before.len() as int] == 41);
        assert(s =~= Seq::empty());
    } else {
        string_from_front(s);
        let first = string_byte(s[0]);
        let rest = s.skip(1);
        let more = before + first;
        string_reads(more, rest, after);
        assert(more + string_bytes(rest) + seq![41u8] + after =~= b);
        assert(b[before.len() as int] == first[0]);
        if first.len() == 2 {
            assert(b[(before.len() + 1) as int] == first[1]);
        }
        assert(seq![s[0]] + rest =~= s);
    }
}

/// A string reads back as it was: what stands between the parentheses denotes its bytes, whatever they
/// are, and the string ends where its notation does.
pub proof fn string_reads_back(s: Seq<u8>, after: Seq<u8>)
    ensures
        ({
            let b = object_bytes(Obj::String(s));
            &&& b.len() > 0 && b[0] == 40
            &&& string_read(b + after, 1) == Some((s, b.len()))
        }),
{
    parentheses();
    let open = seq![40u8];
    string_reads(open, s, after);
    assert(object_bytes(Obj::String(s)) + after =~= open + string_bytes(s) + seq![41u8] + after);
}

proof fn parentheses()
    ensures
        encode_utf8("("@) == seq![40u8],
        encode_utf8(")"@) == seq![41u8],
        encode_utf8("/"@) == seq![47u8],
{
    reveal_strlit("(");
    reveal_strlit(")");
    reveal_strlit("/");
    assert("("@ =~= seq!['(']);
    assert(")"@ =~= seq![')']);
    assert("/"@ =~= seq!['/']);
    one_char('(');
    one_char(')');
    one_char('/');
}

proof fn one_char(c: char)
    requires
        (c as u32) < 128,
    ensures
        encode_utf8(seq![c]) == seq![c as u8],
{
    let v = c as u32;
    let none: Seq<char> = Seq::empty();
    assert(v & 0x7F == v) by (bit_vector)
        requires
            v < 128,
    ;
    assert(seq![c].drop_first() =~= none);
    assert(encode_utf8(none) =~= Seq::<u8>::empty());
    assert(encode_scalar(v) =~= seq![v as u8]);
    assert(encode_utf8(seq![c]) == encode_scalar(v) + encode_utf8(none));
    assert(encode_utf8(seq![c]) =~= seq![c as u8]);
}

/// Is it a white-space character, or one that delimits: a parenthesis, a bracket, a brace, an angle
/// bracket, a slash or a percent sign?
pub open spec fn ends_name(b: u8) -> bool {
    b == 0 || b == 9 || b == 10 || b == 12 || b == 13 || b == 32 || b == 40 || b == 41 || b == 60 || b == 62 || b == 91
        || b == 93 || b == 123 || b == 125 || b == 47 || b == 37
}

/// The value of a hexadecimal digit.
pub open spec fn hex_read(b: u8) -> nat {
    if 48 <= b <= 57 {
        (b - 48) as nat
    } else if 65 <= b <= 70 {
        (b - 55) as nat
    } else if 97 <= b <= 102 {
        (b - 87) as nat
    } else {
        0
    }
}

/// What a name holds that begins at position `i`, behind its slash, and the position behind it. A number
/// sign and two hexadecimal digits stand for a byte.
pub open spec fn name_read(b: Seq<u8>, i: nat) -> (Seq<u8>, nat)
    decreases b.len() - i,
{
    if i >= b.len() || ends_name(b[i as int]) {
        (Seq::empty(), i)
    } else if b[i as int] == 35 && i + 2 < b.len() {
        let (rest, end) = name_read(b, i + 3);
        (seq![(hex_read(b[(i + 1) as int]) * 16 + hex_read(b[(i + 2) as int])) as u8] + rest, end)
    } else {
        let (rest, end) = name_read(b, i + 1);
        (seq![b[i as int]] + rest, end)
    }
}

proof fn name_from_front(s: Seq<u8>)
    requires
        s.len() > 0,
    ensures
        name_bytes(s) == name_byte(s[0]) + name_bytes(s.skip(1)),
    decreases s.len(),
{
    if s.len() == 1 {
        let none: Seq<u8> = Seq::empty();
        assert(s.drop_last() =~= none);
        assert(s.skip(1) =~= none);
        assert(name_bytes(none) =~= none);
        assert(name_bytes(s) =~= name_byte(s[0]));
        assert(name_byte(s[0]) + name_bytes(s.skip(1)) =~= name_byte(s[0]));
    } else {
        let front = s.drop_last();
        name_from_front(front);
        assert(s.skip(1).drop_last() =~= front.skip(1));
        assert(s.skip(1).last() == s.last());
        assert(front[0] == s[0]);
        assert(name_byte(s[0]) + name_bytes(front.skip(1)) + name_byte(s.last()) =~= name_byte(s[0]) + (name_bytes(
            front.skip(1),
        ) + name_byte(s.last())));
    }
}

proof fn hex_reads(b: u8)
    ensures
        hex_read(hex_digit((b / 16) as u8)) * 16 + hex_read(hex_digit((b % 16) as u8)) == b,
        !ends_name(hex_digit((b / 16) as u8)),
        !ends_name(hex_digit((b % 16) as u8)),
{
}

proof fn name_reads(before: Seq<u8>, s: Seq<u8>, after: Seq<u8>)
    requires
        after.len() == 0 || ends_name(after[0]),
    ensures
        name_read(before + name_bytes(s) + after, before.len()) == (s, before.len() + name_bytes(s).len()),
    decreases s.len(),
{
    let b = before + name_bytes(s) + after;
    if s.len() == 0 {
        if after.len() > 0 {
            assert(b[before.len() as int] == after[0]);
        }
        assert(s =~= Seq::empty());
    } else {
        name_from_front(s);
        let first = name_byte(s[0]);
        let rest = s.skip(1);
        let more = before + first;
        name_reads(more, rest, after);
        assert(more + name_bytes(rest) + after =~= b);
        assert(b[before.len() as int] == first[0]);
        if !is_regular(s[0]) {
            hex_reads(s[0]);
            assert(b[(before.len() + 1) as int] == first[1]);
            assert(b[(before.len() + 2) as int] == first[2]);
        }
        assert(seq![s[0]] + rest =~= s);
    }
}

/// A name reads back as it was: what follows the slash denotes its bytes, whatever they are, and the
/// name ends where its notation does.
pub proof fn name_reads_back(n: Seq<char>, after: Seq<u8>)
    requires
        after.len() == 0 || ends_name(after[0]),
    ensures
        ({
            let b = object_bytes(Obj::Name(n));
            &&& b.len() > 0 && b[0] == 47
            &&& name_read(b + after, 1) == (encode_utf8(n), b.len())
        }),
{
    parentheses();
    let slash = seq![47u8];
    let s = encode_utf8(n);
    name_reads(slash, s, after);
    assert(object_bytes(Obj::Name(n)) + after =~= slash + name_bytes(s) + after);
}

/// The words for null and for the truth values, and a reference as two numbers and a letter.
pub proof fn words_are_written(id: nat, gen: u16, text: Seq<char>)
    ensures
        object_bytes(Obj::Null) == encode_utf8("null"@),
        object_bytes(Obj::Boolean(true)) == encode_utf8("true"@),
        object_bytes(Obj::Boolean(false)) == encode_utf8("false"@),
        object_bytes(Obj::Real(text)) == encode_utf8(text),
        object_bytes(Obj::Reference(id, gen)) == decimal(id) + encode_utf8(" "@) + decimal(gen as nat) + encode_utf8(
            " R"@,
        ),
{
}

/// An array is written item by item between brackets: with one more item, its notation is the same up
/// to the closing bracket, before which the item stands behind a space.
pub proof fn array_is_written_item_by_item(items: Seq<Obj>, last: Obj)
    ensures
        ({
            let close = encode_utf8(" ]"@);
            let before = object_bytes(Obj::Array(items));
            let after = object_bytes(Obj::Array(items.push(last)));
            &&& object_bytes(Obj::Array(Seq::empty())) == encode_utf8("["@) + close
            &&& before.len() >= close.len()
            &&& after == before.take(before.len() - close.len()) + encode_utf8(" "@) + object_bytes(last) + close
        }),
{
    let close = encode_utf8(" ]"@);
    let open = encode_utf8("["@);
    let more = items.push(last);
    let none: Seq<Obj> = Seq::empty();
    let empty: Seq<u8> = Seq::empty();
    items_same(items, more, items.len());
    assert(items_bytes(none, 0) == empty);
    assert(object_bytes(Obj::Array(none)) =~= open + close);
    let before = object_bytes(Obj::Array(items));
    let listed = items_bytes(items, items.len());
    assert(before.take(before.len() - close.len()) =~= open + listed);
    assert(items_bytes(more, more.len()) == listed + encode_utf8(" "@) + object_bytes(last));
    assert(object_bytes(Obj::Array(more)) =~= open + listed + encode_utf8(" "@) + object_bytes(last) + close);
}

proof fn items_same(a: Seq<Obj>, b: Seq<Obj>, k: nat)
    requires
        k <= a.len() <= b.len(),
        forall|i: int| 0 <= i < k ==> #[trigger] a[i] == b[i],
    ensures
        items_bytes(a, k) == items_bytes(b, k),
    decreases k,
{
    if k > 0 {
        items_same(a, b, (k - 1) as nat);
        assert(a[k - 1] == b[k - 1]);
    }
}

/// A dictionary is written entry by entry between double angle brackets: with one more entry, its
/// notation is the same up to the closing brackets, before which the key and the value stand, each
/// behind a space.
pub proof fn dictionary_is_written_entry_by_entry(d: Entries, key: Seq<char>, v: Obj)
    ensures
        ({
            let close = encode_utf8(" >>"@);
            let before = object_bytes(Obj::Dictionary(d));
            let after = object_bytes(Obj::Dictionary(d.push((key, v))));
            &&& object_bytes(Obj::Dictionary(Seq::empty())) == encode_utf8("<<"@) + close
            &&& before.len() >= close.len()
            &&& after == before.take(before.len() - close.len()) + encode_utf8(" "@) + object_bytes(Obj::Name(key))
                + encode_utf8(" "@) + object_bytes(v) + close
        }),
{
    let close = encode_utf8(" >>"@);
    let open = encode_utf8("<<"@);
    let more = d.push((key, v));
    let none: Entries = Seq::empty();
    let empty: Seq<u8> = Seq::empty();
    entries_same(d, more, d.len());
    assert(entries_bytes(none, 0) == empty);
    assert(object_bytes(Obj::Dictionary(none)) =~= open + close);
    let before = object_bytes(Obj::Dictionary(d));
    let listed = entries_bytes(d, d.len());
    let space = encode_utf8(" "@);
    assert(before.take(before.len() - close.len()) =~= open + listed);
    assert(entries_bytes(more, more.len()) == listed + space + name_text(key) + space + object_bytes(v));
    assert(object_bytes(Obj::Dictionary(more)) =~= open + listed + space + name_text(key) + space + object_bytes(v)
        + close);
}

proof fn entries_same(a: Entries, b: Entries, k: nat)
    requires
        k <= a.len() <= b.len(),
        forall|i: int| 0 <= i < k ==> #[trigger] a[i] == b[i],
    ensures
        entries_bytes(a, k) == entries_bytes(b, k),
    decreases k,
{
    if k > 0 {
        entries_same(a, b, (k - 1) as nat);
        assert(a[k - 1] == b[k - 1]);
    }
}

/// A stream is written as its dictionary, which states the length of its data, and the data itself.
pub proof fn stream_is_written_with_its_data(d: Entries, data: Seq<u8>)
    ensures
        ({
            let b = object_bytes(Obj::Stream(d, data));
            let head = encode_utf8("<<"@) + stream_entries_bytes(d, d.len()) + encode_utf8(" /Length "@) + decimal(
                data.len(),
            ) + encode_utf8(" >>\nstream\n"@);
            let tail = encode_utf8("\nendstream"@);
            &&& b.len() == head.len() + data.len() + tail.len()
            &&& b.take(head.len() as int) == head
            &&& b.subrange(head.len() as int, (head.len() + data.len()) as int) == data
            &&& b.skip((head.len() + data.len()) as int) == tail
        }),
{
    let b = object_bytes(Obj::Stream(d, data));
    let head = encode_utf8("<<"@) + stream_entries_bytes(d, d.len()) + encode_utf8(" /Length "@) + decimal(data.len())
        + encode_utf8(" >>\nstream\n"@);
    let tail = encode_utf8("\nendstream"@);
    assert(b =~= head + data + tail);
    assert(b.take(head.len() as int) =~= head);
    assert(b.subrange(head.len() as int, (head.len() + data.len()) as int) =~= data);
    assert(b.skip((head.len() + data.len()) as int) =~= tail);
}

/// The entries of a stream are written one by one, but for the length, which is stated once, as it is.
pub proof fn stream_entries_are_written(d: Entries, key: Seq<char>, v: Obj)
    ensures
        ({
            let more = d.push((key, v));
            stream_entries_bytes(more, more.len()) == (if key == "Length"@ {
                stream_entries_bytes(d, d.len())
            } else {
                stream_entries_bytes(d, d.len()) + encode_utf8(" "@) + object_bytes(Obj::Name(key)) + encode_utf8(" "@)
                    + object_bytes(v)
            })
        }),
{
    stream_entries_same(d, d.push((key, v)), d.len());
}

proof fn stream_entries_same(a: Entries, b: Entries, k: nat)
    requires
        k <= a.len() <= b.len(),
        forall|i: int| 0 <= i < k ==> #[trigger] a[i] == b[i],
    ensures
        stream_entries_bytes(a, k) == stream_entries_bytes(b, k),
    decreases k,
{
    if k > 0 {
        stream_entries_same(a, b, (k - 1) as nat);
        assert(a[k - 1] == b[k - 1]);
    }
}

proof fn plain_text_is_its_bytes(s: Seq<char>)
    requires
        forall|i: int| 0 <= i < s.len() ==> (#[trigger] s[i] as u32) < 128,
    ensures
        encode_utf8(s).len() == s.len(),
    decreases s.len(),
{
    if s.len() > 0 {
        let rest = s.drop_first();
        assert forall|i: int| 0 <= i < rest.len() implies (#[trigger] rest[i] as u32) < 128 by {
            assert(rest[i] == s[i + 1]);
        }
        plain_text_is_its_bytes(rest);
        assert((s[0] as u32) < 128);
    }
}

proof fn row_lengths()
    ensures
        encode_utf8("0000000000 65535 f \r\n"@).len() == 21,
        encode_utf8(" 00000 n \r\n"@).len() == 11,
{
    reveal_strlit("0000000000 65535 f \r\n");
    reveal_strlit(" 00000 n \r\n");
    assert("0000000000 65535 f \r\n"@.len() == 21);
    assert(" 00000 n \r\n"@.len() == 11);
    plain_text_is_its_bytes("0000000000 65535 f \r\n"@);
    plain_text_is_its_bytes(" 00000 n \r\n"@);
}

proof fn rows_stand(objects: Seq<Obj>, k: nat, id: nat)
    requires
        k <= objects.len(),
        forall|n: nat| 1 <= n <= k ==> decimal(#[trigger] offset(objects, n)).len() <= 10,
    ensures
        xref_entries(objects, k).len() == 21 * (k + 1),
        1 <= id <= k ==> xref_entries(objects, k).subrange(21 * id as int, 21 * id as int + 10) == padded_decimal(
            offset(objects, id),
            10,
        ) && xref_entries(objects, k).subrange(21 * id as int + 10, 21 * id as int + 21) == encode_utf8(" 00000 n \r\n"@),
    decreases k,
{
    row_lengths();
    if k > 0 {
        let front = xref_entries(objects, (k - 1) as nat);
        let all = xref_entries(objects, k);
        rows_stand(objects, (k - 1) as nat, id);
        assert(decimal(offset(objects, k)).len() <= 10);
        padded_reads_back(offset(objects, k), 10);
        if id == k {
            assert(all.subrange(21 * id as int, 21 * id as int + 10) =~= padded_decimal(offset(objects, k), 10));
            assert(all.subrange(21 * id as int + 10, 21 * id as int + 21) =~= encode_utf8(" 00000 n \r\n"@));
        } else if 1 <= id < k {
            assert(all.subrange(21 * id as int, 21 * id as int + 10) =~= front.subrange(21 * id as int, 21 * id as int + 10));
            assert(all.subrange(21 * id as int + 10, 21 * id as int + 21) =~= front.subrange(21 * id as int + 10, 21 * id as int + 21));
        }
    }
}

/// The cross-reference table leads to the objects: its rows have a fixed length, the row of an object
/// begins with ten digits, and these denote the place in the file at which the object stands with its
/// number.
pub proof fn table_leads_to_the_objects(objects: Seq<Obj>, root: nat, info: Option<nat>, id: nat)
    requires
        1 <= id <= objects.len(),
        forall|n: nat| 1 <= n <= objects.len() ==> decimal(#[trigger] offset(objects, n)).len() <= 10,
    ensures
        ({
            let file = pdf_bytes(objects, root, info);
            let at = body_bytes(objects, objects.len()).len();
            let head = encode_utf8("xref\n0 "@) + decimal(objects.len() + 1) + encode_utf8("\n"@);
            let row = (at + head.len() + 21 * id) as int;
            let place = number_read(file.subrange(row, row + 10));
            let object = decimal(id) + encode_utf8(" 0 obj\n"@) + object_bytes(objects[id - 1]) + encode_utf8(
                "\nendobj\n"@,
            );
            &&& file.subrange(at as int, (at + head.len()) as int) == head
            &&& file.subrange(row + 10, row + 21) == encode_utf8(" 00000 n \r\n"@)
            &&& place + object.len() <= file.len()
            &&& file.subrange(place as int, (place + object.len()) as int) == object
        }),
{
    let file = pdf_bytes(objects, root, info);
    let body = body_bytes(objects, objects.len());
    let at = body.len();
    let head = encode_utf8("xref\n0 "@) + decimal(objects.len() + 1) + encode_utf8("\n"@);
    let rows = xref_entries(objects, objects.len());
    let row = (at + head.len() + 21 * id) as int;
    rows_stand(objects, objects.len(), id);
    padded_reads_back(offset(objects, id), 10);
    offsets_are_right(objects, root, info, id);
    let tail = trailer_bytes(objects.len(), root, info) + encode_utf8("startxref\n"@) + decimal(at) + encode_utf8(
        "\n%%EOF\n"@,
    );
    file_in_parts(objects, root, info);
    part_within(body, head, rows, tail, 21 * id as int, 21 * id as int + 10);
    part_within(body, head, rows, tail, 21 * id as int + 10, 21 * id as int + 21);
}

proof fn part_within(a: Seq<u8>, b: Seq<u8>, c: Seq<u8>, d: Seq<u8>, from: int, to: int)
    requires
        0 <= from <= to <= c.len(),
    ensures
        (a + b + c + d).subrange(a.len() + b.len() + from, a.len() + b.len() + to) == c.subrange(from, to),
        (a + b + c + d).subrange(a.len() as int, (a.len() + b.len()) as int) == b,
{
    assert((a + b + c + d).subrange(a.len() + b.len() + from, a.len() + b.len() + to) =~= c.subrange(from, to));
    assert((a + b + c + d).subrange(a.len() as int, (a.len() + b.len()) as int) =~= b);
}

proof fn file_in_parts(objects: Seq<Obj>, root: nat, info: Option<nat>)
    ensures
        pdf_bytes(objects, root, info) == body_bytes(objects, objects.len()) + (encode_utf8("xref\n0 "@) + decimal(
            objects.len() + 1,
        ) + encode_utf8("\n"@)) + xref_entries(objects, objects.len()) + (trailer_bytes(objects.len(), root, info)
            + encode_utf8("startxref\n"@) + decimal(body_bytes(objects, objects.len()).len()) + encode_utf8(
            "\n%%EOF\n"@,
        )),
{
    let body = body_bytes(objects, objects.len());
    let head = encode_utf8("xref\n0 "@) + decimal(objects.len() + 1) + encode_utf8("\n"@);
    let rows = xref_entries(objects, objects.len());
    let a = trailer_bytes(objects.len(), root, info);
    let b = encode_utf8("startxref\n"@);
    let c = decimal(body.len());
    let d = encode_utf8("\n%%EOF\n"@);
    assert(xref_bytes(objects) == head + rows);
    assert(body + (head + rows) + a + b + c + d =~= body + head + rows + (a + b + c + d));
}

/// A file begins with the version and a line of bytes that are no text, and its trailer states how many
/// numbers there are, the catalog, and the document information where there is one.
pub proof fn file_begins_and_ends(objects: Seq<Obj>, root: nat, info: Option<nat>)
    ensures
        ({
            let file = pdf_bytes(objects, root, info);
            let body = body_bytes(objects, objects.len());
            let start = encode_utf8("%PDF-1.7\n%"@) + seq![0xE2u8, 0xE3u8, 0xCFu8, 0xD3u8] + encode_utf8("\n"@);
            let end = encode_utf8("trailer\n<< /Size "@) + decimal(objects.len() + 1) + encode_utf8(" /Root "@) + decimal(
                root,
            ) + encode_utf8(" 0 R"@) + (match info {
                Some(i) => encode_utf8(" /Info "@) + decimal(i) + encode_utf8(" 0 R"@),
                None => Seq::<u8>::empty(),
            }) + encode_utf8(" >>\n"@) + encode_utf8("startxref\n"@) + decimal(body.len()) + encode_utf8("\n%%EOF\n"@);
            &&& start.len() <= file.len() && file.take(start.len() as int) == start
            &&& end.len() <= file.len() && file.skip(file.len() - end.len()) == end
        }),
{
    let file = pdf_bytes(objects, root, info);
    let body = body_bytes(objects, objects.len());
    let start = header();
    begins_with_header(objects, objects.len());
    let end = trailer_bytes(objects.len(), root, info) + encode_utf8("startxref\n"@) + decimal(body.len()) + encode_utf8(
        "\n%%EOF\n"@,
    );
    assert(file =~= body + xref_bytes(objects) + end);
    assert(file.take(start.len() as int) =~= body.take(start.len() as int));
    assert(file.skip(file.len() - end.len()) =~= end);
}

proof fn begins_with_header(objects: Seq<Obj>, k: nat)
    ensures
        header().len() <= body_bytes(objects, k).len(),
        body_bytes(objects, k).take(header().len() as int) == header(),
    decreases k,
{
    if k > 0 {
        begins_with_header(objects, (k - 1) as nat);
        let before = body_bytes(objects, (k - 1) as nat);
        assert(body_bytes(objects, k).take(header().len() as int) =~= before.take(header().len() as int));
    } else {
        assert(header().take(header().len() as int) =~= header());
    }
}

proof fn text_digits(n: nat)
    ensures
        decimal_text(n).len() == decimal(n).len(),
        forall|i: int| 0 <= i < decimal(n).len() ==> #[trigger] decimal_text(n)[i] as u32 == decimal(n)[i],
    decreases n,
{
    if n >= 10 {
        text_digits(n / 10);
        let d = decimal(n);
        let t = decimal_text(n);
        assert forall|i: int| 0 <= i < d.len() implies #[trigger] t[i] as u32 == d[i] by {
            if i < d.len() - 1 {
                assert(t[i] == decimal_text(n / 10)[i]);
                assert(d[i] == decimal(n / 10)[i]);
            }
        }
    }
}

/// A number in a message is written with the digits that a number in the file is.
pub proof fn numbers_in_messages_are_decimal(n: nat)
    ensures
        decimal_text(n).len() == decimal(n).len(),
        forall|i: int| 0 <= i < decimal(n).len() ==> #[trigger] decimal_text(n)[i] as u32 == decimal(n)[i],
{
    text_digits(n);
}

} // verus!
