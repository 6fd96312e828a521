//! The canonical form is unambiguous: objects of the same form are equal, but for the kind of numbers
//! and words that are written alike.

use vstd::prelude::*;
use vstd::utf8::{encode_utf8, is_ascii_chars, is_ascii_chars_encode_utf8};
use crate::object::{Entries, Obj};
use crate::text::{decimal, encode_utf8_injective, signed_decimal};
use super::canon::{
    canon, canon_dict, canon_entries, canon_items, canon_part, ends_number, generation, plain_byte,
    plain_bytes, quoted_byte, quoted_bytes,
};
use super::refs::{rename, rename_entries};

verus! {

/// The notation of a number, a truth value or null.
pub open spec fn word(o: Obj) -> Option<Seq<u8>> {
    match o {
        Obj::Null => Some(encode_utf8("null"@)),
        Obj::Boolean(b) => Some(
            if b {
                encode_utf8("true"@)
            } else {
                encode_utf8("false"@)
            },
        ),
        Obj::Integer(i) => Some(signed_decimal(i as int)),
        Obj::Real(t) => Some(encode_utf8(t)),
        _ => None,
    }
}

/// Are the objects equal but for the kind of numbers and words that are written alike?
pub open spec fn alike_in_writing(a: Obj, b: Obj) -> bool
    decreases a,
{
    match a {
        Obj::Array(x) => b is Array && x.len() == b->Array_0.len() && forall|i: int|
            0 <= i < x.len() ==> alike_in_writing(#[trigger] x[i], b->Array_0[i]),
        Obj::Dictionary(x) => b is Dictionary && entries_alike(x, b->Dictionary_0),
        Obj::Stream(x, data) => b is Stream && entries_alike(x, b->Stream_0) && data == b->Stream_1,
        _ => a == b || (word(a) is Some && word(a) == word(b)),
    }
}

/// Are the keys the same, and the values equal but for the kind of numbers and words that are written
/// alike?
pub open spec fn entries_alike(x: Entries, y: Entries) -> bool
    decreases x,
{
    x.len() == y.len() && forall|i: int|
        0 <= i < x.len() ==> (#[trigger] x[i]).0 == y[i].0 && alike_in_writing(x[i].1, y[i].1)
}

proof fn ascii(s: Seq<char>)
    requires
        is_ascii_chars(s),
    ensures
        encode_utf8(s) == Seq::new(s.len(), |i: int| s[i] as u8),
{
    is_ascii_chars_encode_utf8(s);
    assert(encode_utf8(s) =~= Seq::new(s.len(), |i: int| s[i] as u8));
}

/// The bytes of the words and signs of the notation.
proof fn signs_of_notation()
    ensures
        encode_utf8("null"@) == seq![110u8, 117, 108, 108],
        encode_utf8("true"@) == seq![116u8, 114, 117, 101],
        encode_utf8("false"@) == seq![102u8, 97, 108, 115, 101],
        encode_utf8("stream"@) == seq![115u8, 116, 114, 101, 97, 109],
        encode_utf8("("@) == seq![40u8],
        encode_utf8(")"@) == seq![41u8],
        encode_utf8("/"@) == seq![47u8],
        encode_utf8("["@) == seq![91u8],
        encode_utf8("]"@) == seq![93u8],
        encode_utf8(" R"@) == seq![32u8, 82],
        encode_utf8(" "@) == seq![32u8],
        encode_utf8("<<"@) == seq![60u8, 60],
        encode_utf8(">>"@) == seq![62u8, 62],
{
    reveal_strlit("null");
    reveal_strlit("true");
    reveal_strlit("false");
    reveal_strlit("stream");
    reveal_strlit("(");
    reveal_strlit(")");
    reveal_strlit("/");
    reveal_strlit("[");
    reveal_strlit("]");
    reveal_strlit(" R");
    reveal_strlit(" ");
    reveal_strlit("<<");
    reveal_strlit(">>");
    ascii("null"@);
    ascii("true"@);
    ascii("false"@);
    ascii("stream"@);
    ascii("("@);
    ascii(")"@);
    ascii("/"@);
    ascii("["@);
    ascii("]"@);
    ascii(" R"@);
    ascii(" "@);
    ascii("<<"@);
    ascii(">>"@);
    assert(encode_utf8("null"@) =~= seq![110u8, 117, 108, 108]);
    assert(encode_utf8("true"@) =~= seq![116u8, 114, 117, 101]);
    assert(encode_utf8("false"@) =~= seq![102u8, 97, 108, 115, 101]);
    assert(encode_utf8("stream"@) =~= seq![115u8, 116, 114, 101, 97, 109]);
    assert(encode_utf8("("@) =~= seq![40u8]);
    assert(encode_utf8(")"@) =~= seq![41u8]);
    assert(encode_utf8("/"@) =~= seq![47u8]);
    assert(encode_utf8("["@) =~= seq![91u8]);
    assert(encode_utf8("]"@) =~= seq![93u8]);
    assert(encode_utf8(" R"@) =~= seq![32u8, 82]);
    assert(encode_utf8(" "@) =~= seq![32u8]);
    assert(encode_utf8("<<"@) =~= seq![60u8, 60]);
    assert(encode_utf8(">>"@) =~= seq![62u8, 62]);
}

/// Is there no space among the bytes?
spec fn unspaced(s: Seq<u8>) -> bool {
    forall|i: int| 0 <= i < s.len() ==> #[trigger] s[i] != 32
}

/// Does what follows begin with a space, or is it nothing?
spec fn spaced(x: Seq<u8>) -> bool {
    x.len() == 0 || x[0] == 32
}

/// Can `x` follow a part without being taken for some of it?
spec fn follows(x: Seq<u8>) -> bool {
    x.len() == 0 || (x.len() > 1 && x[0] == 32 && x[1] != 82)
}

proof fn run_prefix(p: Seq<u8>, q: Seq<u8>, x: Seq<u8>, y: Seq<u8>)
    requires
        unspaced(p),
        unspaced(q),
        spaced(x),
        spaced(y),
        p + x == q + y,
    ensures
        p == q,
        x == y,
{
    let s = p + x;
    let t = q + y;
    if p.len() < q.len() {
        assert(s[p.len() as int] == x[0]);
        assert(t[p.len() as int] == q[p.len() as int]);
    } else if q.len() < p.len() {
        assert(t[q.len() as int] == y[0]);
        assert(s[q.len() as int] == p[q.len() as int]);
    }
    let n = p.len() as int;
    assert(s.take(n) =~= p);
    assert(t.take(n) =~= q);
    assert(s.skip(n) =~= x);
    assert(t.skip(n) =~= y);
}

proof fn skip_same(h: Seq<u8>, x: Seq<u8>, y: Seq<u8>)
    requires
        h + x == h + y,
    ensures
        x == y,
{
    assert((h + x).skip(h.len() as int) =~= x);
    assert((h + y).skip(h.len() as int) =~= y);
}

proof fn plain_unspaced(s: Seq<u8>, number: bool)
    ensures
        unspaced(plain_bytes(s, number)),
        number && s.len() > 0 ==> plain_bytes(s, number).len() > 0 && (plain_bytes(s, number)[0] == 35
            || !ends_number(plain_bytes(s, number)[0])),
    decreases s.len(),
{
    if s.len() > 0 {
        plain_unspaced(s.skip(1), number);
        let h = plain_byte(s[0], number);
        let t = plain_bytes(s.skip(1), number);
        assert(unspaced(h));
        assert forall|i: int| 0 <= i < (h + t).len() implies #[trigger] (h + t)[i] != 32 by {
            if i >= h.len() {
                assert((h + t)[i] == t[i - h.len()]);
            } else {
                assert((h + t)[i] == h[i]);
            }
        }
    }
}

proof fn plain_injective(s: Seq<u8>, t: Seq<u8>, number: bool)
    requires
        plain_bytes(s, number) == plain_bytes(t, number),
    ensures
        s == t,
    decreases s.len(),
{
    let p = plain_bytes(s, number);
    let q = plain_bytes(t, number);
    if s.len() == 0 || t.len() == 0 {
        assert(s.len() > 0 ==> p[0] == plain_byte(s[0], number)[0]);
        assert(t.len() > 0 ==> q[0] == plain_byte(t[0], number)[0]);
        assert(s =~= t);
    } else {
        let (h, g) = (plain_byte(s[0], number), plain_byte(t[0], number));
        assert(p[0] == h[0] && q[0] == g[0]);
        if h.len() == 3 {
            assert(p[1] == h[1] && p[2] == h[2]);
            assert(g.len() == 3);
            assert(q[1] == g[1] && q[2] == g[2]);
            let (a, b) = (s[0], t[0]);
            assert(a / 16 == b / 16 && a % 16 == b % 16);
            assert(a == 16 * (a / 16) + a % 16 && b == 16 * (b / 16) + b % 16);
        } else {
            assert(g.len() == 1);
        }
        assert(s[0] == t[0]);
        skip_same(h, plain_bytes(s.skip(1), number), plain_bytes(t.skip(1), number));
        plain_injective(s.skip(1), t.skip(1), number);
        assert(s =~= seq![s[0]] + s.skip(1));
        assert(t =~= seq![t[0]] + t.skip(1));
    }
}

/// Bytes that need no escape stay as they are.
proof fn plain_same(s: Seq<u8>)
    requires
        forall|i: int| 0 <= i < s.len() ==> !ends_number(#[trigger] s[i]),
    ensures
        plain_bytes(s, true) == s,
    decreases s.len(),
{
    if s.len() > 0 {
        let t = s.skip(1);
        assert forall|i: int| 0 <= i < t.len() implies !ends_number(#[trigger] t[i]) by {
            assert(t[i] == s[i + 1]);
        }
        plain_same(t);
        assert(plain_bytes(s, true) =~= s);
    } else {
        assert(plain_bytes(s, true) =~= s);
    }
}

proof fn quoted_prefix(s: Seq<u8>, t: Seq<u8>, x: Seq<u8>, y: Seq<u8>)
    requires
        quoted_bytes(s) + (seq![41u8] + x) == quoted_bytes(t) + (seq![41u8] + y),
    ensures
        s == t,
        x == y,
    decreases s.len(),
{
    let p = quoted_bytes(s) + (seq![41u8] + x);
    let q = quoted_bytes(t) + (seq![41u8] + y);
    if s.len() == 0 {
        assert(p =~= seq![41u8] + x);
        assert(p[0] == 41);
        if t.len() > 0 {
            assert(q[0] == quoted_byte(t[0])[0]);
        }
        assert(t.len() == 0);
        assert(q =~= seq![41u8] + y);
        skip_same(seq![41u8], x, y);
        assert(s =~= t);
    } else {
        assert(p[0] == quoted_byte(s[0])[0]);
        if t.len() == 0 {
            assert(q =~= seq![41u8] + y);
            assert(q[0] == 41);
        }
        assert(t.len() > 0);
        assert(q[0] == quoted_byte(t[0])[0]);
        let h = quoted_byte(s[0]);
        let g = quoted_byte(t[0]);
        if h.len() == 2 {
            assert(p[1] == h[1]);
            assert(g.len() == 2);
            assert(q[1] == g[1]);
        }
        assert(s[0] == t[0]);
        let (u, v) = (quoted_bytes(s.skip(1)) + (seq![41u8] + x), quoted_bytes(t.skip(1)) + (seq![41u8] + y));
        assert(p =~= h + u);
        assert(q =~= g + v);
        skip_same(h, u, v);
        quoted_prefix(s.skip(1), t.skip(1), x, y);
        assert(s =~= seq![s[0]] + s.skip(1));
        assert(t =~= seq![t[0]] + t.skip(1));
    }
}

proof fn decimal_digits(n: nat)
    ensures
        decimal(n).len() > 0,
        forall|i: int| 0 <= i < decimal(n).len() ==> 48 <= #[trigger] decimal(n)[i] <= 57,
    decreases n,
{
    if n >= 10 {
        decimal_digits(n / 10);
    }
}

proof fn decimal_injective(a: nat, b: nat)
    requires
        decimal(a) == decimal(b),
    ensures
        a == b,
    decreases a,
{
    let (p, q) = (decimal(a), decimal(b));
    assert(p.last() == q.last());
    decimal_digits(a / 10);
    decimal_digits(b / 10);
    if a >= 10 && b >= 10 {
        assert(p.drop_last() =~= decimal(a / 10));
        assert(q.drop_last() =~= decimal(b / 10));
        decimal_injective(a / 10, b / 10);
    }
}

/// A word stands in the form as it is but for what must be escaped.
proof fn word_form(o: Obj)
    requires
        word(o) is Some,
    ensures
        canon_part(o) == plain_bytes(word(o)->0, true),
{
    signs_of_notation();
    let w = word(o)->0;
    match o {
        Obj::Integer(i) => {
            decimal_digits(i as nat);
            decimal_digits((-i) as nat);
            plain_same(w);
        },
        Obj::Real(_) => {},
        _ => {
            plain_same(w);
        },
    }
}

/// The first byte of a form, by which its kind is told; zero for numbers, words and references.
spec fn lead(o: Obj) -> u8 {
    match o {
        Obj::String(_) => 40,
        Obj::Name(_) => 47,
        Obj::Array(_) => 91,
        Obj::Dictionary(_) => 60,
        Obj::Stream(_, _) => 60,
        _ => 0,
    }
}

proof fn led(o: Obj, x: Seq<u8>)
    requires
        spaced(x),
    ensures
        ({
            let s = canon_part(o) + x;
            if lead(o) != 0 {
                s.len() > 0 && s[0] == lead(o)
            } else {
                s.len() == 0 || s[0] == 32 || s[0] == 35 || !ends_number(s[0])
            }
        }),
{
    signs_of_notation();
    match o {
        Obj::Reference(id, _) => {
            decimal_digits(id);
            assert((canon_part(o) + x)[0] == decimal(id)[0]);
        },
        Obj::String(_) => {},
        Obj::Name(_) => {},
        Obj::Array(_) => {},
        Obj::Dictionary(_) => {},
        Obj::Stream(_, _) => {},
        _ => {
            word_form(o);
            let w = word(o)->0;
            plain_unspaced(w, true);
            if w.len() > 0 {
                assert((canon_part(o) + x)[0] == plain_bytes(w, true)[0]);
            } else {
                assert(canon_part(o) + x =~= x);
            }
        },
    }
}

proof fn reference_prefix(a: Obj, b: Obj, x: Seq<u8>, y: Seq<u8>)
    requires
        a is Reference,
        b is Reference,
        follows(x),
        follows(y),
        canon_part(a) + x == canon_part(b) + y,
    ensures
        a == b,
        x == y,
{
    signs_of_notation();
    let r = seq![32u8, 82];
    let (g, h) = (generation(a->Reference_1), generation(b->Reference_1));
    let (m, n) = (a->Reference_0, b->Reference_0);
    decimal_digits(m);
    decimal_digits(n);
    decimal_digits(a->Reference_1 as nat);
    decimal_digits(b->Reference_1 as nat);
    assert(canon_part(a) + x =~= decimal(m) + (r + (g + x)));
    assert(canon_part(b) + y =~= decimal(n) + (r + (h + y)));
    assert((r + (g + x))[0] == 32 && (r + (h + y))[0] == 32);
    run_prefix(decimal(m), decimal(n), r + (g + x), r + (h + y));
    decimal_injective(m, n);
    skip_same(r, g + x, h + y);
    run_prefix(g, h, x, y);
    if a->Reference_1 != 0 && b->Reference_1 != 0 {
        decimal_injective(a->Reference_1 as nat, b->Reference_1 as nat);
    }
}

proof fn word_is_no_reference(a: Obj, b: Obj, x: Seq<u8>, y: Seq<u8>)
    requires
        word(a) is Some,
        b is Reference,
        follows(x),
        follows(y),
    ensures
        canon_part(a) + x != canon_part(b) + y,
{
    signs_of_notation();
    if canon_part(a) + x == canon_part(b) + y {
        let r = seq![32u8, 82];
        let h = generation(b->Reference_1);
        let n = b->Reference_0;
        decimal_digits(n);
        word_form(a);
        plain_unspaced(word(a)->0, true);
        assert(canon_part(b) + y =~= decimal(n) + (r + (h + y)));
        assert((r + (h + y))[0] == 32 && (r + (h + y))[1] == 82);
        run_prefix(canon_part(a), decimal(n), x, r + (h + y));
    }
}

proof fn word_prefix(a: Obj, b: Obj, x: Seq<u8>, y: Seq<u8>)
    requires
        word(a) is Some,
        word(b) is Some,
        follows(x),
        follows(y),
        canon_part(a) + x == canon_part(b) + y,
    ensures
        word(a) == word(b),
        x == y,
{
    word_form(a);
    word_form(b);
    plain_unspaced(word(a)->0, true);
    plain_unspaced(word(b)->0, true);
    run_prefix(canon_part(a), canon_part(b), x, y);
    plain_injective(word(a)->0, word(b)->0, true);
}

proof fn name_prefix(m: Seq<char>, n: Seq<char>, x: Seq<u8>, y: Seq<u8>)
    requires
        spaced(x),
        spaced(y),
        plain_bytes(encode_utf8(m), false) + x == plain_bytes(encode_utf8(n), false) + y,
    ensures
        m == n,
        x == y,
{
    plain_unspaced(encode_utf8(m), false);
    plain_unspaced(encode_utf8(n), false);
    run_prefix(plain_bytes(encode_utf8(m), false), plain_bytes(encode_utf8(n), false), x, y);
    plain_injective(encode_utf8(m), encode_utf8(n), false);
    encode_utf8_injective(m, n);
}

proof fn data_prefix(u: Seq<u8>, v: Seq<u8>, x: Seq<u8>, y: Seq<u8>)
    requires
        decimal(u.len()) + (seq![32u8] + (u + x)) == decimal(v.len()) + (seq![32u8] + (v + y)),
    ensures
        u == v,
        x == y,
{
    decimal_digits(u.len());
    decimal_digits(v.len());
    run_prefix(decimal(u.len()), decimal(v.len()), seq![32u8] + (u + x), seq![32u8] + (v + y));
    decimal_injective(u.len(), v.len());
    skip_same(seq![32u8], u + x, v + y);
    let n = u.len() as int;
    assert((u + x).take(n) =~= u);
    assert((v + y).take(n) =~= v);
    assert((u + x).skip(n) =~= x);
    assert((v + y).skip(n) =~= y);
}

proof fn string_prefix(u: Seq<u8>, v: Seq<u8>, x: Seq<u8>, y: Seq<u8>)
    requires
        canon_part(Obj::String(u)) + x == canon_part(Obj::String(v)) + y,
    ensures
        u == v,
        x == y,
{
    signs_of_notation();
    let (p, q) = (quoted_bytes(u) + (seq![41u8] + x), quoted_bytes(v) + (seq![41u8] + y));
    assert(canon_part(Obj::String(u)) + x =~= seq![40u8] + p);
    assert(canon_part(Obj::String(v)) + y =~= seq![40u8] + q);
    skip_same(seq![40u8], p, q);
    quoted_prefix(u, v, x, y);
}

proof fn name_part_prefix(m: Seq<char>, n: Seq<char>, x: Seq<u8>, y: Seq<u8>)
    requires
        spaced(x),
        spaced(y),
        canon_part(Obj::Name(m)) + x == canon_part(Obj::Name(n)) + y,
    ensures
        m == n,
        x == y,
{
    signs_of_notation();
    let (p, q) = (plain_bytes(encode_utf8(m), false) + x, plain_bytes(encode_utf8(n), false) + y);
    assert(canon_part(Obj::Name(m)) + x =~= seq![47u8] + p);
    assert(canon_part(Obj::Name(n)) + y =~= seq![47u8] + q);
    skip_same(seq![47u8], p, q);
    name_prefix(m, n, x, y);
}

proof fn array_opens(a: Seq<Obj>, b: Seq<Obj>, x: Seq<u8>, y: Seq<u8>)
    requires
        canon_part(Obj::Array(a)) + x == canon_part(Obj::Array(b)) + y,
    ensures
        canon_items(a, 0) + (seq![93u8] + x) == canon_items(b, 0) + (seq![93u8] + y),
{
    signs_of_notation();
    let (p, q) = (canon_items(a, 0) + (seq![93u8] + x), canon_items(b, 0) + (seq![93u8] + y));
    assert(canon_part(Obj::Array(a)) + x =~= seq![91u8] + p);
    assert(canon_part(Obj::Array(b)) + y =~= seq![91u8] + q);
    skip_same(seq![91u8], p, q);
}

/// What comes behind the dictionary of a dictionary or a stream.
spec fn behind(o: Obj, x: Seq<u8>) -> Seq<u8> {
    match o {
        Obj::Stream(_, data) => encode_utf8("stream"@) + (decimal(data.len()) + (seq![32u8] + (data + x))),
        _ => x,
    }
}

/// The dictionary of a dictionary or a stream.
spec fn dict_in(o: Obj) -> Entries {
    match o {
        Obj::Dictionary(d) => d,
        Obj::Stream(d, _) => d,
        _ => Seq::empty(),
    }
}

proof fn dict_part(o: Obj, x: Seq<u8>)
    requires
        lead(o) == 60,
    ensures
        canon_part(o) + x == canon_dict(dict_in(o)) + behind(o, x),
        o is Stream ==> behind(o, x).len() > 0 && behind(o, x)[0] == 115,
{
    signs_of_notation();
    assert(canon_part(o) + x =~= canon_dict(dict_in(o)) + behind(o, x));
}

proof fn behind_prefix(a: Obj, b: Obj, x: Seq<u8>, y: Seq<u8>)
    requires
        lead(a) == 60,
        lead(b) == 60,
        follows(x),
        follows(y),
        behind(a, x) == behind(b, y),
    ensures
        a is Stream <==> b is Stream,
        a is Stream ==> a->Stream_1 == b->Stream_1,
        x == y,
{
    dict_part(a, x);
    dict_part(b, y);
    if a is Stream && b is Stream {
        let (u, v) = (a->Stream_1, b->Stream_1);
        skip_same(
            encode_utf8("stream"@),
            decimal(u.len()) + (seq![32u8] + (u + x)),
            decimal(v.len()) + (seq![32u8] + (v + y)),
        );
        data_prefix(u, v, x, y);
    }
}

/// A form inside another tells where it ends, and what it is the form of.
proof fn part_prefix(a: Obj, b: Obj, x: Seq<u8>, y: Seq<u8>)
    requires
        canon_part(a) + x == canon_part(b) + y,
        follows(x),
        follows(y),
    ensures
        alike_in_writing(a, b),
        x == y,
    decreases a, 0nat, 0nat,
{
    led(a, x);
    led(b, y);
    assert(lead(a) == lead(b));
    match a {
        Obj::String(u) => {
            string_prefix(u, b->String_0, x, y);
        },
        Obj::Name(n) => {
            name_part_prefix(n, b->Name_0, x, y);
        },
        Obj::Array(items) => {
            array_opens(items, b->Array_0, x, y);
            assert(decreases_to!(a => a->Array_0));
            items_prefix(items, b->Array_0, 0, x, y);
        },
        Obj::Dictionary(d) => {
            dict_part(a, x);
            dict_part(b, y);
            assert(decreases_to!(a => a->Dictionary_0));
            dict_prefix(d, dict_in(b), behind(a, x), behind(b, y));
            behind_prefix(a, b, x, y);
        },
        Obj::Stream(d, _) => {
            dict_part(a, x);
            dict_part(b, y);
            assert(decreases_to!(a => a->Stream_0));
            dict_prefix(d, dict_in(b), behind(a, x), behind(b, y));
            behind_prefix(a, b, x, y);
        },
        Obj::Reference(_, _) => {
            if word(b) is Some {
                word_is_no_reference(b, a, y, x);
            } else {
                reference_prefix(a, b, x, y);
            }
        },
        _ => {
            if b is Reference {
                word_is_no_reference(a, b, x, y);
            } else {
                word_prefix(a, b, x, y);
            }
        },
    }
}

/// What follows an item of an array: a space, and the next item or the end.
proof fn item_follows(items: Seq<Obj>, k: nat, x: Seq<u8>)
    ensures
        follows(seq![32u8] + (canon_items(items, k) + (seq![93u8] + x))),
        k < items.len() ==> (canon_items(items, k) + (seq![93u8] + x))[0] != 93,
        k >= items.len() ==> (canon_items(items, k) + (seq![93u8] + x))[0] == 93,
{
    signs_of_notation();
    let s = canon_items(items, k) + (seq![93u8] + x);
    let t = seq![32u8] + s;
    assert(t[0] == 32);
    if k < items.len() {
        let o = items[k as int];
        let rest = seq![32u8] + canon_items(items, k + 1) + (seq![93u8] + x);
        assert(rest[0] == 32);
        led(o, rest);
        assert(s =~= canon_part(o) + rest);
        assert(s.len() > 0);
        assert(t[1] == s[0]);
    } else {
        assert(s =~= seq![93u8] + x);
        assert(t[1] == 93);
    }
}

proof fn items_prefix(a: Seq<Obj>, b: Seq<Obj>, k: nat, x: Seq<u8>, y: Seq<u8>)
    requires
        k <= a.len(),
        k <= b.len(),
        canon_items(a, k) + (seq![93u8] + x) == canon_items(b, k) + (seq![93u8] + y),
    ensures
        a.len() == b.len(),
        forall|i: int| k <= i < a.len() ==> alike_in_writing(#[trigger] a[i], b[i]),
        x == y,
    decreases a, 1nat, a.len() - k,
{
    signs_of_notation();
    item_follows(a, k, x);
    item_follows(b, k, y);
    if k < a.len() && k < b.len() {
        let p = seq![32u8] + (canon_items(a, k + 1) + (seq![93u8] + x));
        let q = seq![32u8] + (canon_items(b, k + 1) + (seq![93u8] + y));
        item_follows(a, k + 1, x);
        item_follows(b, k + 1, y);
        assert(canon_items(a, k) + (seq![93u8] + x) =~= canon_part(a[k as int]) + p);
        assert(canon_items(b, k) + (seq![93u8] + y) =~= canon_part(b[k as int]) + q);
        assert(decreases_to!(a => a[k as int]));
        part_prefix(a[k as int], b[k as int], p, q);
        skip_same(
            seq![32u8],
            canon_items(a, k + 1) + (seq![93u8] + x),
            canon_items(b, k + 1) + (seq![93u8] + y),
        );
        items_prefix(a, b, k + 1, x, y);
    } else {
        assert(k == a.len() && k == b.len());
        assert(canon_items(a, k) + (seq![93u8] + x) =~= seq![93u8] + x);
        assert(canon_items(b, k) + (seq![93u8] + y) =~= seq![93u8] + y);
        skip_same(seq![93u8], x, y);
    }
}

/// A dictionary tells where it ends.
proof fn dict_prefix(d: Entries, e: Entries, x: Seq<u8>, y: Seq<u8>)
    requires
        canon_dict(d) + x == canon_dict(e) + y,
    ensures
        entries_alike(d, e),
        x == y,
    decreases d, 2nat, 0nat,
{
    signs_of_notation();
    let (u, v) = (seq![62u8, 62] + x, seq![62u8, 62] + y);
    let (p, q) = (canon_entries(d, 0) + u, canon_entries(e, 0) + v);
    assert(canon_dict(d) + x =~= seq![60u8, 60] + p);
    assert(canon_dict(e) + y =~= seq![60u8, 60] + q);
    skip_same(seq![60u8, 60], p, q);
    entries_prefix(d, e, 0, x, y);
}

/// What follows an entry of a dictionary: a space, and the next key or the end.
proof fn entry_follows(d: Entries, k: nat, x: Seq<u8>)
    ensures
        follows(seq![32u8] + (canon_entries(d, k) + (seq![62u8, 62] + x))),
        (canon_entries(d, k) + (seq![62u8, 62] + x))[0] == (if k < d.len() {
            47u8
        } else {
            62u8
        }),
{
    signs_of_notation();
    let s = canon_entries(d, k) + (seq![62u8, 62] + x);
    let t = seq![32u8] + s;
    if k >= d.len() {
        assert(s =~= seq![62u8, 62] + x);
    }
    assert(s.len() > 0 && t[0] == 32 && t[1] == s[0]);
}

/// An entry, taken apart: its key, its value and what comes after it.
proof fn entry_parts(d: Entries, k: nat, x: Seq<u8>)
    requires
        k < d.len(),
    ensures
        canon_entries(d, k) + (seq![62u8, 62] + x) == seq![47u8] + (plain_bytes(encode_utf8(d[k as int].0), false) + (
        seq![32u8] + (canon_part(d[k as int].1) + (seq![32u8] + (canon_entries(d, k + 1) + (seq![62u8, 62] + x)))))),
{
    signs_of_notation();
    assert(canon_entries(d, k) + (seq![62u8, 62] + x) =~= seq![47u8] + (plain_bytes(
        encode_utf8(d[k as int].0),
        false,
    ) + (seq![32u8] + (canon_part(d[k as int].1) + (seq![32u8] + (canon_entries(d, k + 1) + (seq![62u8, 62]
        + x)))))));
}

proof fn entries_prefix(a: Entries, b: Entries, k: nat, x: Seq<u8>, y: Seq<u8>)
    requires
        k <= a.len(),
        k <= b.len(),
        canon_entries(a, k) + (seq![62u8, 62] + x) == canon_entries(b, k) + (seq![62u8, 62] + y),
    ensures
        a.len() == b.len(),
        forall|i: int|
            k <= i < a.len() ==> (#[trigger] a[i]).0 == b[i].0 && alike_in_writing(a[i].1, b[i].1),
        x == y,
    decreases a, 1nat, a.len() - k,
{
    entry_follows(a, k, x);
    entry_follows(b, k, y);
    if k < a.len() && k < b.len() {
        let (s, t) = (
            canon_entries(a, k + 1) + (seq![62u8, 62] + x),
            canon_entries(b, k + 1) + (seq![62u8, 62] + y),
        );
        let (p, q) = (canon_part(a[k as int].1) + (seq![32u8] + s), canon_part(b[k as int].1) + (seq![32u8] + t));
        let (m, n) = (
            plain_bytes(encode_utf8(a[k as int].0), false),
            plain_bytes(encode_utf8(b[k as int].0), false),
        );
        entry_parts(a, k, x);
        entry_parts(b, k, y);
        skip_same(seq![47u8], m + (seq![32u8] + p), n + (seq![32u8] + q));
        assert((seq![32u8] + p)[0] == 32 && (seq![32u8] + q)[0] == 32);
        name_prefix(a[k as int].0, b[k as int].0, seq![32u8] + p, seq![32u8] + q);
        skip_same(seq![32u8], p, q);
        entry_follows(a, k + 1, x);
        entry_follows(b, k + 1, y);
        assert(decreases_to!(a => a[k as int]));
        assert(decreases_to!(a[k as int] => a[k as int].1));
        part_prefix(a[k as int].1, b[k as int].1, seq![32u8] + s, seq![32u8] + t);
        skip_same(seq![32u8], s, t);
        entries_prefix(a, b, k + 1, x, y);
    } else {
        assert(k == a.len() && k == b.len());
        assert(canon_entries(a, k) + (seq![62u8, 62] + x) =~= seq![62u8, 62] + x);
        assert(canon_entries(b, k) + (seq![62u8, 62] + y) =~= seq![62u8, 62] + y);
        skip_same(seq![62u8, 62], x, y);
    }
}

proof fn stream_is_no_part(d: Entries, u: Seq<u8>, b: Obj)
    requires
        !(b is Stream),
    ensures
        canon(Obj::Stream(d, u)) != canon(b),
{
    signs_of_notation();
    let a = Obj::Stream(d, u);
    let none: Seq<u8> = Seq::empty();
    if canon(a) == canon(b) {
        let rest = encode_utf8("stream"@) + u;
        assert(canon(b) + none =~= canon(b));
        led(b, none);
        assert(canon(a)[0] == 60);
        let e = b->Dictionary_0;
        assert(canon_dict(d) + rest == canon_dict(e) + none);
        dict_prefix(d, e, rest, none);
        assert(rest[0] == 115);
    }
}

/// Objects of the same canonical form are equal but for the kind of numbers and words that are written
/// alike.
pub proof fn same_form_alike(a: Obj, b: Obj)
    requires
        canon(a) == canon(b),
    ensures
        alike_in_writing(a, b),
{
    let none: Seq<u8> = Seq::empty();
    match (a, b) {
        (Obj::Stream(d, u), Obj::Stream(e, v)) => {
            let w = encode_utf8("stream"@);
            dict_prefix(d, e, w + u, w + v);
            skip_same(w, u, v);
        },
        (Obj::Stream(d, u), _) => {
            stream_is_no_part(d, u, b);
        },
        (_, Obj::Stream(e, v)) => {
            stream_is_no_part(e, v, a);
        },
        _ => {
            assert(canon_part(a) + none =~= canon(a));
            assert(canon_part(b) + none =~= canon(b));
            part_prefix(a, b, none, none);
        },
    }
}

/// Objects that are equal but for the kind of numbers and words that are written alike have the same
/// canonical form.
pub proof fn alike_same_form(a: Obj, b: Obj)
    requires
        alike_in_writing(a, b),
    ensures
        canon(a) == canon(b),
{
    match a {
        Obj::Stream(x, _) => {
            alike_dicts_form(x, b->Stream_0);
        },
        _ => {
            alike_same_part(a, b);
        },
    }
}

proof fn alike_same_part(a: Obj, b: Obj)
    requires
        alike_in_writing(a, b),
    ensures
        canon_part(a) == canon_part(b),
    decreases a, 0nat, 0nat,
{
    match a {
        Obj::Array(x) => {
            assert(decreases_to!(a => a->Array_0));
            alike_items_form(x, b->Array_0, 0);
        },
        Obj::Dictionary(x) => {
            assert(decreases_to!(a => a->Dictionary_0));
            alike_dicts_form(x, b->Dictionary_0);
        },
        Obj::Stream(x, _) => {
            assert(decreases_to!(a => a->Stream_0));
            alike_dicts_form(x, b->Stream_0);
        },
        _ => {
            if word(a) is Some {
                word_form(a);
                word_form(b);
            }
        },
    }
}

proof fn alike_items_form(x: Seq<Obj>, y: Seq<Obj>, k: nat)
    requires
        k <= x.len() == y.len(),
        forall|i: int| 0 <= i < x.len() ==> alike_in_writing(#[trigger] x[i], y[i]),
    ensures
        canon_items(x, k) == canon_items(y, k),
    decreases x, 1nat, x.len() - k,
{
    if k < x.len() {
        alike_items_form(x, y, k + 1);
        assert(decreases_to!(x => x[k as int]));
        alike_same_part(x[k as int], y[k as int]);
    }
}

proof fn alike_dicts_form(x: Entries, y: Entries)
    requires
        entries_alike(x, y),
    ensures
        canon_dict(x) == canon_dict(y),
    decreases x, 2nat, 0nat,
{
    alike_entries_form(x, y, 0);
}

proof fn alike_entries_form(x: Entries, y: Entries, k: nat)
    requires
        k <= x.len(),
        entries_alike(x, y),
    ensures
        canon_entries(x, k) == canon_entries(y, k),
    decreases x, 1nat, x.len() - k,
{
    if k < x.len() {
        alike_entries_form(x, y, k + 1);
        assert(decreases_to!(x => x[k as int]));
        assert(decreases_to!(x[k as int] => x[k as int].1));
        assert(x[k as int].0 == y[k as int].0);
        alike_same_part(x[k as int].1, y[k as int].1);
    }
}

/// Objects of the same canonical form have the same one after their references were turned too.
pub proof fn renamed_same_form(a: Obj, b: Obj, table: Seq<nat>)
    requires
        canon(a) == canon(b),
    ensures
        canon(rename(a, table)) == canon(rename(b, table)),
{
    same_form_alike(a, b);
    renamed_alike(a, b, table);
    alike_same_form(rename(a, table), rename(b, table));
}

proof fn renamed_alike(a: Obj, b: Obj, table: Seq<nat>)
    requires
        alike_in_writing(a, b),
    ensures
        alike_in_writing(rename(a, table), rename(b, table)),
    decreases a,
{
    match a {
        Obj::Array(x) => {
            let y = b->Array_0;
            let (p, q) = (rename(a, table)->Array_0, rename(b, table)->Array_0);
            assert forall|i: int| 0 <= i < p.len() implies alike_in_writing(#[trigger] p[i], q[i]) by {
                assert(decreases_to!(a => a->Array_0));
                assert(decreases_to!(x => x[i]));
                assert(alike_in_writing(x[i], y[i]));
                renamed_alike(x[i], y[i], table);
            }
        },
        Obj::Dictionary(x) => {
            assert(decreases_to!(a => a->Dictionary_0));
            renamed_entries_alike(x, b->Dictionary_0, table);
        },
        Obj::Stream(x, _) => {
            assert(decreases_to!(a => a->Stream_0));
            renamed_entries_alike(x, b->Stream_0, table);
        },
        _ => {},
    }
}

proof fn renamed_entries_alike(x: Entries, y: Entries, table: Seq<nat>)
    requires
        entries_alike(x, y),
    ensures
        entries_alike(rename_entries(x, table), rename_entries(y, table)),
    decreases x,
{
    let (p, q) = (rename_entries(x, table), rename_entries(y, table));
    assert forall|i: int| 0 <= i < p.len() implies (#[trigger] p[i]).0 == q[i].0 && alike_in_writing(p[i].1, q[i].1) by {
        assert(decreases_to!(x => x[i]));
        assert(decreases_to!(x[i] => x[i].1));
        assert(x[i].0 == y[i].0);
        renamed_alike(x[i].1, y[i].1, table);
    }
}

} // verus!
