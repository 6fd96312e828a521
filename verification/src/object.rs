//! PDF objects and dictionaries.

use vstd::prelude::*;
use crate::text::{bytes_eq, bytes_lt_irreflexive, bytes_lt_total, bytes_lt_transitive, key_before, key_lt, str_eq};
use vstd::utf8::encode_utf8;

verus! {

/// An indirect reference: object number and generation.
#[derive(Clone, Copy, Debug, PartialEq, Eq, Structural)]
pub struct ObjectRef {
    pub id: usize,
    pub gen: u16,
}

impl ObjectRef {
    pub fn new(id: usize, gen: u16) -> (r: Self)
        ensures
            r == (ObjectRef { id, gen }),
    {
        ObjectRef { id, gen }
    }
}

/// A dictionary. Its entries are held in the order of their keys, each key once.
#[derive(Debug)]
pub struct Dict {
    entries: Vec<(String, Object)>,
}

/// A PDF object.
///
/// A real number is held as the shortest decimal text that denotes it.
#[derive(Debug)]
pub enum Object {
    Null,
    Boolean(bool),
    Integer(i64),
    Real(String),
    String(Vec<u8>),
    Name(String),
    Array(Vec<Object>),
    Reference(ObjectRef),
    Dictionary(Dict),
    Stream { dict: Dict, data: Vec<u8> },
}

/// The entries of a dictionary, as a mathematical sequence.
pub type Entries = Seq<(Seq<char>, Obj)>;

/// The mathematical value of an object.
pub enum Obj {
    Null,
    Boolean(bool),
    Integer(i64),
    Real(Seq<char>),
    String(Seq<u8>),
    Name(Seq<char>),
    Array(Seq<Obj>),
    Reference(nat, u16),
    Dictionary(Seq<(Seq<char>, Obj)>),
    Stream(Seq<(Seq<char>, Obj)>, Seq<u8>),
}

impl View for Object {
    type V = Obj;

    open spec fn view(&self) -> Obj {
        self.obj()
    }
}

impl Object {
    pub open spec fn obj(&self) -> Obj
        decreases self,
    {
        match self {
            Object::Null => Obj::Null,
            Object::Boolean(b) => Obj::Boolean(*b),
            Object::Integer(i) => Obj::Integer(*i),
            Object::Real(t) => Obj::Real(t@),
            Object::String(s) => Obj::String(s@),
            Object::Name(n) => Obj::Name(n@),
            Object::Array(a) => Obj::Array(
                Seq::new(
                    a@.len(),
                    |i: int|
                        if 0 <= i < a@.len() {
                            a@[i].obj()
                        } else {
                            Obj::Null
                        },
                ),
            ),
            Object::Reference(r) => Obj::Reference(r.id as nat, r.gen),
            Object::Dictionary(d) => Obj::Dictionary(d.items()),
            Object::Stream { dict, data } => Obj::Stream(dict.items(), data@),
        }
    }
}

impl View for Dict {
    type V = Entries;

    open spec fn view(&self) -> Entries {
        self.items()
    }
}

/// The values of a sequence of objects.
pub open spec fn views(s: Seq<Object>) -> Seq<Obj> {
    s.map_values(|o: Object| o@)
}

/// The value of an array is made of the values of its items.
pub broadcast proof fn array_view(a: Vec<Object>)
    ensures
        #[trigger] Object::Array(a)@ == Obj::Array(views(a@)),
{
    assert(Object::Array(a)@->Array_0 =~= views(a@));
}

/// What is stored under `key`.
pub open spec fn dict_get(d: Entries, key: Seq<char>) -> Option<Obj>
    decreases d.len(),
{
    if d.len() == 0 {
        None
    } else if d[0].0 == key {
        Some(d[0].1)
    } else {
        dict_get(d.skip(1), key)
    }
}

/// The dictionary with `value` stored under `key`.
pub open spec fn dict_insert(d: Entries, key: Seq<char>, value: Obj) -> Entries
    decreases d.len(),
{
    if d.len() == 0 {
        seq![(key, value)]
    } else if d[0].0 == key {
        d.update(0, (key, value))
    } else if key_lt(key, d[0].0) {
        seq![(key, value)] + d
    } else {
        seq![d[0]] + dict_insert(d.skip(1), key, value)
    }
}

/// The dictionary without what is stored under `key`.
pub open spec fn dict_remove(d: Entries, key: Seq<char>) -> Entries
    decreases d.len(),
{
    if d.len() == 0 {
        d
    } else if d[0].0 == key {
        dict_remove(d.skip(1), key)
    } else {
        seq![d[0]] + dict_remove(d.skip(1), key)
    }
}

/// Is anything stored under `key`?
pub open spec fn dict_has(d: Entries, key: Seq<char>) -> bool {
    dict_get(d, key) is Some
}

/// The entries are in the order of their keys, each key once.
pub open spec fn dict_sorted(d: Entries) -> bool {
    forall|i: int, j: int| 0 <= i < j < d.len() ==> key_lt(#[trigger] d[i].0, #[trigger] d[j].0)
}

/// A lookup finds what was stored last under the key, and storing under one key changes no other.
pub proof fn dict_get_insert(d: Entries, key: Seq<char>, value: Obj, k: Seq<char>)
    ensures
        dict_get(dict_insert(d, key, value), k) == (if k == key {
            Some(value)
        } else {
            dict_get(d, k)
        }),
    decreases d.len(),
{
    reveal_with_fuel(dict_get, 2);
    let e = dict_insert(d, key, value);
    if d.len() == 0 {
        assert(e.skip(1) =~= Seq::empty());
    } else if d[0].0 == key {
        assert(e.skip(1) =~= d.skip(1));
    } else if key_lt(key, d[0].0) {
        assert(e.skip(1) =~= d);
    } else {
        assert(e.skip(1) =~= dict_insert(d.skip(1), key, value));
        dict_get_insert(d.skip(1), key, value, k);
    }
}

/// Removing a key removes what is stored under it and nothing else.
pub proof fn dict_get_remove(d: Entries, key: Seq<char>, k: Seq<char>)
    ensures
        dict_get(dict_remove(d, key), k) == (if k == key {
            None
        } else {
            dict_get(d, k)
        }),
    decreases d.len(),
{
    if d.len() > 0 {
        dict_get_remove(d.skip(1), key, k);
        if d[0].0 != key {
            assert(dict_remove(d, key).skip(1) =~= dict_remove(d.skip(1), key));
        }
    }
}

/// A lookup that finds something finds the value of an entry with that key, the first one.
pub proof fn dict_get_at(d: Entries, key: Seq<char>, i: int)
    requires
        0 <= i < d.len(),
        d[i].0 == key,
        forall|j: int| 0 <= j < i ==> d[j].0 != key,
    ensures
        dict_get(d, key) == Some(d[i].1),
    decreases d.len(),
{
    if i > 0 {
        assert(d[0].0 != key);
        dict_get_at(d.skip(1), key, i - 1);
    }
}

pub proof fn dict_get_absent(d: Entries, key: Seq<char>)
    requires
        forall|j: int| 0 <= j < d.len() ==> d[j].0 != key,
    ensures
        dict_get(d, key) is None,
        dict_remove(d, key) == d,
    decreases d.len(),
{
    if d.len() > 0 {
        assert(d[0].0 != key);
        assert forall|j: int| 0 <= j < d.skip(1).len() implies d.skip(1)[j].0 != key by {
            assert(d[j + 1].0 != key);
        }
        dict_get_absent(d.skip(1), key);
        assert(dict_remove(d, key) =~= d);
    }
}

/// A value that a lookup finds is the value of some entry.
pub proof fn dict_get_some(d: Entries, key: Seq<char>) -> (i: int)
    requires
        dict_get(d, key) is Some,
    ensures
        0 <= i < d.len(),
        d[i].0 == key,
        dict_get(d, key) == Some(d[i].1),
    decreases d.len(),
{
    if d[0].0 == key {
        0
    } else {
        dict_get_some(d.skip(1), key) + 1
    }
}

proof fn dict_insert_at(d: Entries, key: Seq<char>, value: Obj, i: int)
    requires
        0 <= i <= d.len(),
        forall|j: int| 0 <= j < i ==> d[j].0 != key && !key_lt(key, d[j].0),
        i < d.len() ==> d[i].0 == key || key_lt(key, d[i].0),
    ensures
        i < d.len() && d[i].0 == key ==> dict_insert(d, key, value) == d.update(i, (key, value)),
        !(i < d.len() && d[i].0 == key) ==> dict_insert(d, key, value) == d.insert(i, (key, value)),
    decreases d.len(),
{
    if d.len() == 0 {
        assert(dict_insert(d, key, value) =~= d.insert(i, (key, value)));
    } else if i == 0 {
        if d[0].0 != key {
            assert(dict_insert(d, key, value) =~= d.insert(i, (key, value)));
        }
    } else {
        assert(d[0].0 != key && !key_lt(key, d[0].0));
        dict_insert_at(d.skip(1), key, value, i - 1);
        if i < d.len() && d[i].0 == key {
            assert(dict_insert(d, key, value) =~= d.update(i, (key, value)));
        } else {
            assert(dict_insert(d, key, value) =~= d.insert(i, (key, value)));
        }
    }
}

proof fn dict_remove_at(d: Entries, key: Seq<char>, i: int)
    requires
        0 <= i < d.len(),
        d[i].0 == key,
        forall|j: int| 0 <= j < d.len() && j != i ==> d[j].0 != key,
    ensures
        dict_remove(d, key) == d.remove(i),
    decreases d.len(),
{
    let r = d.skip(1);
    if i == 0 {
        assert forall|j: int| 0 <= j < r.len() implies r[j].0 != key by {
            assert(d[j + 1].0 != key);
        }
        dict_get_absent(r, key);
        assert(d.remove(0) =~= r);
    } else {
        assert(d[0].0 != key);
        assert forall|j: int| 0 <= j < r.len() && j != i - 1 implies r[j].0 != key by {
            assert(d[j + 1].0 != key);
        }
        dict_remove_at(r, key, i - 1);
        assert(dict_remove(d, key) =~= d.remove(i));
    }
}

/// Two dictionaries that are in order and answer every lookup alike are the same.
pub proof fn dict_extensional(a: Entries, b: Entries)
    requires
        dict_sorted(a),
        dict_sorted(b),
        forall|k: Seq<char>| #[trigger] dict_get(a, k) == dict_get(b, k),
    ensures
        a == b,
    decreases a.len() + b.len(),
{
    if a.len() == 0 || b.len() == 0 {
        if a.len() > 0 {
            assert(dict_get(a, a[0].0) is Some);
            assert(dict_get(b, a[0].0) is None);
        }
        if b.len() > 0 {
            assert(dict_get(b, b[0].0) is Some);
            assert(dict_get(a, b[0].0) is None);
        }
        assert(a =~= b);
    } else {
        let ka = a[0].0;
        let kb = b[0].0;
        assert(dict_get(a, ka) == dict_get(b, ka));
        assert(dict_get(a, kb) == dict_get(b, kb));
        let i = dict_get_some(b, ka);
        let j = dict_get_some(a, kb);
        if ka != kb {
            assert(key_lt(kb, ka));
            assert(key_lt(ka, kb));
            bytes_lt_transitive(encode_utf8(ka), encode_utf8(kb), encode_utf8(ka));
            bytes_lt_irreflexive(encode_utf8(ka));
        }
        let ra = a.skip(1);
        let rb = b.skip(1);
        assert forall|k: Seq<char>| #[trigger] dict_get(ra, k) == dict_get(rb, k) by {
            assert(dict_get(a, k) == dict_get(b, k));
            if k == ka {
                assert forall|m: int| 0 <= m < ra.len() implies ra[m].0 != k by {
                    assert(key_lt(a[0].0, a[m + 1].0));
                    bytes_lt_irreflexive(encode_utf8(k));
                }
                assert forall|m: int| 0 <= m < rb.len() implies rb[m].0 != k by {
                    assert(key_lt(b[0].0, b[m + 1].0));
                    bytes_lt_irreflexive(encode_utf8(k));
                }
                dict_get_absent(ra, k);
                dict_get_absent(rb, k);
            }
        }
        assert(dict_sorted(ra)) by {
            assert forall|m: int, n: int| 0 <= m < n < ra.len() implies key_lt(#[trigger] ra[m].0, #[trigger] ra[n].0) by {
                assert(key_lt(a[m + 1].0, a[n + 1].0));
            }
        }
        assert(dict_sorted(rb)) by {
            assert forall|m: int, n: int| 0 <= m < n < rb.len() implies key_lt(#[trigger] rb[m].0, #[trigger] rb[n].0) by {
                assert(key_lt(b[m + 1].0, b[n + 1].0));
            }
        }
        dict_extensional(ra, rb);
        assert(a =~= seq![a[0]] + ra);
        assert(b =~= seq![b[0]] + rb);
    }
}

/// The entries of a vector of keys and objects, as values.
pub open spec fn entry_views(e: Seq<(String, Object)>) -> Entries {
    e.map_values(|p: (String, Object)| (p.0@, p.1@))
}

impl Dict {
    pub closed spec fn items(&self) -> Entries
        decreases self,
    {
        Seq::new(
            self.entries@.len(),
            |i: int|
                if 0 <= i < self.entries@.len() {
                    (self.entries@[i].0@, self.entries@[i].1.obj())
                } else {
                    (seq![], Obj::Null)
                },
        )
    }

    #[verifier::type_invariant]
    spec fn in_order(&self) -> bool {
        dict_sorted(entry_views(self.entries@))
    }

    proof fn items_are_views(&self)
        ensures
            self.items() == entry_views(self.entries@),
    {
        assert(self.items() =~= entry_views(self.entries@));
    }

    pub fn new() -> (d: Self)
        ensures
            d@ == Seq::<(Seq<char>, Obj)>::empty(),
    {
        let d = Dict { entries: Vec::new() };
        proof {
            d.items_are_views();
            assert(d@ =~= Seq::empty());
        }
        d
    }

    /// A dictionary of the given entries, which are in order.
    pub(crate) fn from_sorted(entries: Vec<(String, Object)>) -> (d: Self)
        requires
            dict_sorted(entry_views(entries@)),
        ensures
            d@ == entry_views(entries@),
    {
        let d = Dict { entries };
        proof {
            d.items_are_views();
        }
        d
    }

    pub fn len(&self) -> (n: usize)
        ensures
            n == self@.len(),
            dict_sorted(self@),
    {
        proof {
            use_type_invariant(self);
            self.items_are_views();
        }
        self.entries.len()
    }

    pub fn is_empty(&self) -> (r: bool)
        ensures
            r == (self@.len() == 0),
    {
        self.len() == 0
    }

    /// The key of the entry at position `i`.
    pub fn key_at(&self, i: usize) -> (k: &String)
        requires
            i < self@.len(),
        ensures
            k@ == self@[i as int].0,
    {
        proof {
            self.items_are_views();
        }
        &self.entries[i].0
    }

    /// The value of the entry at position `i`.
    pub fn value_at(&self, i: usize) -> (v: &Object)
        requires
            i < self@.len(),
        ensures
            v@ == self@[i as int].1,
    {
        proof {
            self.items_are_views();
        }
        &self.entries[i].1
    }

    /// The position of the first entry whose key is not before `key`.
    fn position(&self, key: &str) -> (i: usize)
        ensures
            i <= self.entries@.len(),
            forall|j: int| 0 <= j < i ==> key_lt(#[trigger] self@[j].0, key@),
            i < self@.len() ==> !key_lt(self@[i as int].0, key@),
    {
        proof {
            self.items_are_views();
        }
        let mut i: usize = 0;
        while i < self.entries.len() && key_before(self.entries[i].0.as_str(), key)
            invariant
                i <= self.entries@.len(),
                self@ == entry_views(self.entries@),
                forall|j: int| 0 <= j < i ==> key_lt(#[trigger] self@[j].0, key@),
            decreases self.entries@.len() - i,
        {
            i += 1;
        }
        i
    }

    pub fn get(&self, key: &str) -> (r: Option<&Object>)
        ensures
            match r {
                Some(v) => dict_get(self@, key@) == Some(v@),
                None => dict_get(self@, key@) is None,
            },
    {
        proof {
            use_type_invariant(self);
            self.items_are_views();
        }
        let i = self.position(key);
        proof {
            assert forall|j: int| 0 <= j < i implies self@[j].0 != key@ by {
                bytes_lt_irreflexive(encode_utf8(key@));
            }
            assert forall|j: int| i < j < self@.len() implies self@[j].0 != key@ by {
                assert(key_lt(self@[i as int].0, self@[j].0));
            }
        }
        if i < self.entries.len() && str_eq(self.entries[i].0.as_str(), key) {
            proof {
                dict_get_at(self@, key@, i as int);
            }
            Some(&self.entries[i].1)
        } else {
            proof {
                dict_get_absent(self@, key@);
            }
            None
        }
    }

    pub fn contains_key(&self, key: &str) -> (r: bool)
        ensures
            r == dict_has(self@, key@),
    {
        self.get(key).is_some()
    }

    /// Store `value` under `key`.
    pub fn insert(&mut self, key: &str, value: Object)
        ensures
            final(self)@ == dict_insert(old(self)@, key@, value@),
    {
        proof {
            use_type_invariant(&*self);
            self.items_are_views();
        }
        let i = self.position(key);
        let ghost d = self@;
        let mut entries: Vec<(String, Object)> = Vec::new();
        std::mem::swap(&mut entries, &mut self.entries);
        assert(entry_views(entries@) == d);
        proof {
            assert forall|j: int| 0 <= j < i implies d[j].0 != key@ && !key_lt(key@, d[j].0) by {
                assert(key_lt(d[j].0, key@));
                bytes_lt_irreflexive(encode_utf8(key@));
                if key_lt(key@, d[j].0) {
                    bytes_lt_transitive(encode_utf8(key@), encode_utf8(d[j].0), encode_utf8(key@));
                }
            }
            if i < d.len() && d[i as int].0 != key@ {
                bytes_lt_total(encode_utf8(d[i as int].0), encode_utf8(key@));
                if encode_utf8(d[i as int].0) == encode_utf8(key@) {
                    crate::text::encode_utf8_injective(d[i as int].0, key@);
                }
            }
            dict_insert_at(d, key@, value@, i as int);
        }
        if i < entries.len() && str_eq(entries[i].0.as_str(), key) {
            entries[i] = (key.to_string(), value);
            assert(entry_views(entries@) =~= d.update(i as int, (key@, value@)));
            proof {
                let e = entry_views(entries@);
                assert forall|m: int, n: int| 0 <= m < n < e.len() implies key_lt(#[trigger] e[m].0, #[trigger] e[n].0) by {
                    assert(key_lt(d[m].0, d[n].0));
                }
            }
        } else {
            entries.insert(i, (key.to_string(), value));
            assert(entry_views(entries@) =~= d.insert(i as int, (key@, value@)));
            proof {
                let e = entry_views(entries@);
                assert forall|m: int, n: int| 0 <= m < n < e.len() implies key_lt(#[trigger] e[m].0, #[trigger] e[n].0) by {
                    let m0 = if m < i { m } else { m - 1 };
                    let n0 = if n < i { n } else { n - 1 };
                    if m != i && n != i {
                        assert(key_lt(d[m0].0, d[n0].0));
                    } else if n == i {
                        assert(key_lt(d[m].0, key@));
                    } else {
                        assert(key_lt(key@, d[i as int].0));
                        if n0 != i {
                            assert(key_lt(d[i as int].0, d[n0].0));
                            bytes_lt_transitive(encode_utf8(key@), encode_utf8(d[i as int].0), encode_utf8(d[n0].0));
                        }
                    }
                }
            }
        }
        self.entries = entries;
        proof {
            self.items_are_views();
        }
    }

    /// Remove what is stored under `key`, and hand it out.
    pub fn remove(&mut self, key: &str) -> (r: Option<Object>)
        ensures
            final(self)@ == dict_remove(old(self)@, key@),
            match r {
                Some(v) => dict_get(old(self)@, key@) == Some(v@),
                None => dict_get(old(self)@, key@) is None,
            },
    {
        proof {
            use_type_invariant(&*self);
            self.items_are_views();
        }
        let i = self.position(key);
        let ghost d = self@;
        proof {
            assert forall|j: int| 0 <= j < i implies d[j].0 != key@ by {
                assert(key_lt(d[j].0, key@));
                bytes_lt_irreflexive(encode_utf8(key@));
            }
            assert forall|j: int| i < j < d.len() implies d[j].0 != key@ by {
                assert(key_lt(d[i as int].0, d[j].0));
            }
        }
        if i < self.entries.len() && str_eq(self.entries[i].0.as_str(), key) {
            let mut entries: Vec<(String, Object)> = Vec::new();
            std::mem::swap(&mut entries, &mut self.entries);
            assert(entry_views(entries@) == d);
            let (_, value) = entries.remove(i);
            proof {
                dict_get_at(d, key@, i as int);
                dict_remove_at(d, key@, i as int);
                assert(entry_views(entries@) =~= d.remove(i as int));
                let e = entry_views(entries@);
                assert forall|m: int, n: int| 0 <= m < n < e.len() implies key_lt(#[trigger] e[m].0, #[trigger] e[n].0) by {
                    let m0 = if m < i { m } else { m + 1 };
                    let n0 = if n < i { n } else { n + 1 };
                    assert(key_lt(d[m0].0, d[n0].0));
                }
            }
            self.entries = entries;
            proof {
                self.items_are_views();
            }
            Some(value)
        } else {
            proof {
                dict_get_absent(d, key@);
            }
            None
        }
    }
}

impl Clone for Dict {
    fn clone(&self) -> (r: Self)
        ensures
            r@ == self@,
        decreases self,
    {
        proof {
            use_type_invariant(self);
            self.items_are_views();
        }
        let mut out: Vec<(String, Object)> = Vec::new();
        let mut i: usize = 0;
        while i < self.entries.len()
            invariant
                i <= self.entries@.len(),
                out@.len() == i,
                self@ == entry_views(self.entries@),
                forall|j: int|
                    0 <= j < i ==> (#[trigger] out@[j]).0@ == self@[j].0 && out@[j].1@ == self@[j].1,
            decreases self.entries@.len() - i,
        {
            let v = self.entries[i].1.clone();
            out.push((self.entries[i].0.clone(), v));
            i += 1;
        }
        assert(entry_views(out@) =~= self@);
        Dict::from_sorted(out)
    }
}

impl Clone for Object {
    fn clone(&self) -> (r: Self)
        ensures
            r@ == self@,
        decreases self,
    {
        broadcast use array_view;

        match self {
            Object::Null => Object::Null,
            Object::Boolean(b) => Object::Boolean(*b),
            Object::Integer(i) => Object::Integer(*i),
            Object::Real(t) => Object::Real(t.clone()),
            Object::String(s) => {
                let c = s.clone();
                assert(c@ =~= s@);
                Object::String(c)
            },
            Object::Name(n) => Object::Name(n.clone()),
            Object::Array(a) => {
                let mut out: Vec<Object> = Vec::new();
                let mut i: usize = 0;
                while i < a.len()
                    invariant
                        i <= a@.len(),
                        out@.len() == i,
                        forall|j: int| 0 <= j < i ==> #[trigger] out@[j]@ == a@[j]@,
                        *self == Object::Array(*a),
                        decreases_to!(*self => *a),
                    decreases a@.len() - i,
                {
                    assert(decreases_to!(*a => a@[i as int]));
                    out.push(a[i].clone());
                    i += 1;
                }
                assert(views(out@) =~= views(a@));
                Object::Array(out)
            },
            Object::Reference(r) => Object::Reference(*r),
            Object::Dictionary(d) => Object::Dictionary(d.clone()),
            Object::Stream { dict, data } => {
                let c = data.clone();
                assert(c@ =~= data@);
                Object::Stream { dict: dict.clone(), data: c }
            },
        }
    }
}

/// The dictionary of a dictionary or a stream.
pub open spec fn obj_dict(o: Obj) -> Option<Entries> {
    match o {
        Obj::Dictionary(d) => Some(d),
        Obj::Stream(d, _) => Some(d),
        _ => None,
    }
}

/// The items of an array.
pub open spec fn obj_array(o: Obj) -> Option<Seq<Obj>> {
    match o {
        Obj::Array(a) => Some(a),
        _ => None,
    }
}

/// The characters of a name.
pub open spec fn obj_name(o: Obj) -> Option<Seq<char>> {
    match o {
        Obj::Name(n) => Some(n),
        _ => None,
    }
}

/// The object number that a reference points at.
pub open spec fn obj_ref(o: Obj) -> Option<nat> {
    match o {
        Obj::Reference(id, _) => Some(id),
        _ => None,
    }
}

/// The value of an integer.
pub open spec fn obj_integer(o: Obj) -> Option<i64> {
    match o {
        Obj::Integer(i) => Some(i),
        _ => None,
    }
}

/// The bytes of a string.
pub open spec fn obj_string(o: Obj) -> Option<Seq<u8>> {
    match o {
        Obj::String(s) => Some(s),
        _ => None,
    }
}

/// Is the entry under `key` the name `name`?
pub open spec fn dict_is_name(d: Entries, key: Seq<char>, name: Seq<char>) -> bool {
    dict_get(d, key) == Some(Obj::Name(name))
}

/// The object number that the entry under `key` points at.
pub open spec fn dict_ref(d: Entries, key: Seq<char>) -> Option<nat> {
    match dict_get(d, key) {
        Some(o) => obj_ref(o),
        None => None,
    }
}

impl Object {
    /// The dictionary of a dictionary or a stream.
    pub fn as_dict(&self) -> (r: Option<&Dict>)
        ensures
            match r {
                Some(d) => obj_dict(self@) == Some(d@),
                None => obj_dict(self@) is None,
            },
    {
        match self {
            Object::Dictionary(d) => Some(d),
            Object::Stream { dict, .. } => Some(dict),
            _ => None,
        }
    }

    pub fn as_array(&self) -> (r: Option<&Vec<Object>>)
        ensures
            match r {
                Some(a) => obj_array(self@) == Some(views(a@)),
                None => obj_array(self@) is None,
            },
    {
        broadcast use array_view;

        match self {
            Object::Array(a) => Some(a),
            _ => None,
        }
    }

    pub fn as_name(&self) -> (r: Option<&str>)
        ensures
            match r {
                Some(n) => obj_name(self@) == Some(n@),
                None => obj_name(self@) is None,
            },
    {
        match self {
            Object::Name(n) => Some(n.as_str()),
            _ => None,
        }
    }

    pub fn as_reference(&self) -> (r: Option<ObjectRef>)
        ensures
            match r {
                Some(r) => *self == Object::Reference(r) && obj_ref(self@) == Some(r.id as nat),
                None => obj_ref(self@) is None,
            },
    {
        match self {
            Object::Reference(r) => Some(*r),
            _ => None,
        }
    }

    pub fn as_integer(&self) -> (r: Option<i64>)
        ensures
            r == obj_integer(self@),
    {
        match self {
            Object::Integer(i) => Some(*i),
            _ => None,
        }
    }

    pub fn as_string(&self) -> (r: Option<&[u8]>)
        ensures
            match r {
                Some(s) => obj_string(self@) == Some(s@),
                None => obj_string(self@) is None,
            },
    {
        match self {
            Object::String(s) => Some(s.as_slice()),
            _ => None,
        }
    }

    /// A reference to object `id`, of generation zero.
    pub fn reference(id: usize) -> (r: Self)
        ensures
            r@ == new_ref(id as nat),
    {
        Object::Reference(ObjectRef::new(id, 0))
    }

    /// The name `n`.
    pub fn name(n: &str) -> (r: Self)
        ensures
            r@ == Obj::Name(n@),
    {
        Object::Name(n.to_string())
    }
}

/// A reference to object `id`, of generation zero.
pub open spec fn new_ref(id: nat) -> Obj {
    Obj::Reference(id, 0)
}

impl Dict {
    /// Is the entry under `key` the name `name`?
    pub fn is_name(&self, key: &str, name: &str) -> (r: bool)
        ensures
            r == dict_is_name(self@, key@, name@),
    {
        match self.get(key) {
            Some(o) => match o.as_name() {
                Some(n) => str_eq(n, name),
                None => false,
            },
            None => false,
        }
    }

    /// The reference stored under `key`.
    pub fn get_ref(&self, key: &str) -> (r: Option<ObjectRef>)
        ensures
            match r {
                Some(r) => dict_ref(self@, key@) == Some(r.id as nat),
                None => dict_ref(self@, key@) is None,
            },
    {
        match self.get(key) {
            Some(o) => o.as_reference(),
            None => None,
        }
    }
}

/// Are two objects the same?
pub fn same_object(a: &Object, b: &Object) -> (r: bool)
    ensures
        r == (a@ == b@),
    decreases a@, 0nat,
{
    broadcast use array_view;

    match (a, b) {
        (Object::Null, Object::Null) => true,
        (Object::Boolean(x), Object::Boolean(y)) => *x == *y,
        (Object::Integer(x), Object::Integer(y)) => *x == *y,
        (Object::Real(x), Object::Real(y)) => str_eq(x.as_str(), y.as_str()),
        (Object::String(x), Object::String(y)) => bytes_eq(x.as_slice(), y.as_slice()),
        (Object::Name(x), Object::Name(y)) => str_eq(x.as_str(), y.as_str()),
        (Object::Array(x), Object::Array(y)) => {
            if x.len() != y.len() {
                assert(views(x@).len() != views(y@).len());
                return false;
            }
            let mut i: usize = 0;
            while i < x.len()
                invariant
                    i <= x@.len() == y@.len(),
                    a@ == Obj::Array(views(x@)),
                    b@ == Obj::Array(views(y@)),
                    forall|j: int| 0 <= j < i ==> #[trigger] views(x@)[j] == views(y@)[j],
                decreases x@.len() - i,
            {
                assert(decreases_to!(a@ => a@->Array_0));
                assert(decreases_to!(views(x@) => views(x@)[i as int]));
                if !same_object(&x[i], &y[i]) {
                    assert(views(x@)[i as int] != views(y@)[i as int]);
                    return false;
                }
                i += 1;
            }
            assert(views(x@) =~= views(y@));
            true
        },
        (Object::Reference(x), Object::Reference(y)) => x.id == y.id && x.gen == y.gen,
        (Object::Dictionary(x), Object::Dictionary(y)) => {
            assert(decreases_to!(a@ => a@->Dictionary_0));
            same_dict(x, y)
        },
        (Object::Stream { dict: x, data: s }, Object::Stream { dict: y, data: t }) => {
            assert(decreases_to!(a@ => a@->Stream_0));
            same_dict(x, y) && bytes_eq(s.as_slice(), t.as_slice())
        },
        _ => false,
    }
}

fn same_dict(a: &Dict, b: &Dict) -> (r: bool)
    ensures
        r == (a@ == b@),
    decreases a@, 1nat,
{
    let n = a.len();
    if n != b.len() {
        return false;
    }
    let mut i: usize = 0;
    while i < n
        invariant
            i <= n == a@.len() == b@.len(),
            forall|j: int| 0 <= j < i ==> #[trigger] a@[j] == b@[j],
        decreases n - i,
    {
        assert(decreases_to!(a@ => a@[i as int]));
        assert(decreases_to!(a@[i as int] => a@[i as int].1));
        if !str_eq(a.key_at(i).as_str(), b.key_at(i).as_str()) {
            assert(a@[i as int] != b@[i as int]);
            return false;
        }
        if !same_object(a.value_at(i), b.value_at(i)) {
            assert(a@[i as int] != b@[i as int]);
            return false;
        }
        i += 1;
    }
    assert(a@ =~= b@);
    true
}

} // verus!
