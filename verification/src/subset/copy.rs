//! Deep copy of source objects into the output.

use vstd::prelude::*;
use crate::document::{resolve, PdfDocument};
use crate::object::{
    array_view, dict_get, dict_insert, entry_views, new_ref, views, Dict, Entries, Obj, Object, ObjectRef,
};
use super::{nats, next_id, object_at, put, with_slot, Builder, Env, State, MAX_DEPTH};

verus! {

/// How many levels are left below `depth`.
pub open spec fn levels(depth: nat) -> nat {
    if depth > MAX_DEPTH {
        0
    } else {
        (MAX_DEPTH + 1 - depth) as nat
    }
}

/// One level further down. Below the greatest depth nothing depends on the depth any more.
pub fn deeper(depth: usize) -> (d: usize)
    ensures
        depth <= MAX_DEPTH ==> d == depth + 1,
        depth > MAX_DEPTH ==> d > MAX_DEPTH,
        levels(d as nat) == levels((depth + 1) as nat),
{
    if depth > MAX_DEPTH {
        depth
    } else {
        depth + 1
    }
}

/// The object of number `id`, or null where there is none.
pub open spec fn load_or_null(doc: PdfDocument, id: nat) -> Obj {
    match doc.lookup(id) {
        Some(o) => o,
        None => Obj::Null,
    }
}

/// Copy the source object of number `id`, unless it was copied before. Gives its new number.
pub open spec fn import(env: Env, st: State, src: nat, id: nat, depth: nat) -> (State, nat)
    decreases levels(depth), 0nat, 0nat,
{
    if st.ids.contains_key((src, id)) {
        (st, st.ids[(src, id)])
    } else {
        let n = next_id(st);
        let s1 = State { ids: st.ids.insert((src, id), n), ..with_slot(st) };
        let (s2, o) = if depth > MAX_DEPTH {
            (s1, Obj::Null)
        } else {
            remap(env, s1, src, load_or_null(env.docs[src as int], id), depth + 1)
        };
        (put(s2, n, o), n)
    }
}

/// Copy what `o` refers to, and give `o` with its references turned to the copies. A reference to a
/// page that is kept is turned to the new page, one to a page that is not kept becomes null, and so
/// does what lies too deep.
pub open spec fn remap(env: Env, st: State, src: nat, o: Obj, depth: nat) -> (State, Obj)
    decreases levels(depth), 1nat, 0nat,
{
    if depth > MAX_DEPTH {
        (st, Obj::Null)
    } else {
        match o {
            Obj::Reference(id, _) => {
                if env.pages.contains_key((src, id)) {
                    (st, new_ref(env.pages[(src, id)]))
                } else if env.severed.contains((src, id)) {
                    (st, Obj::Null)
                } else {
                    let (s1, n) = import(env, st, src, id, depth);
                    (s1, new_ref(n))
                }
            },
            Obj::Array(items) => {
                let (s1, out) = remap_items(env, st, src, items, depth + 1);
                (s1, Obj::Array(out))
            },
            Obj::Dictionary(d) => {
                let (s1, out) = remap_entries(env, st, src, d, depth + 1);
                (s1, Obj::Dictionary(out))
            },
            Obj::Stream(d, data) => {
                let (s1, out) = remap_entries(env, st, src, d, depth + 1);
                (s1, Obj::Stream(out, data))
            },
            _ => (st, o),
        }
    }
}

/// [`remap`] on each item, from first to last.
pub open spec fn remap_items(env: Env, st: State, src: nat, items: Seq<Obj>, depth: nat) -> (
    State,
    Seq<Obj>,
)
    decreases levels(depth), 2nat, items.len(),
{
    if items.len() == 0 {
        (st, Seq::empty())
    } else {
        let (s1, out) = remap_items(env, st, src, items.drop_last(), depth);
        let (s2, o) = remap(env, s1, src, items.last(), depth);
        (s2, out.push(o))
    }
}

/// [`remap`] on the value of each entry, from first to last; the keys stay.
pub open spec fn remap_entries(env: Env, st: State, src: nat, d: Entries, depth: nat) -> (
    State,
    Entries,
)
    decreases levels(depth), 2nat, d.len(),
{
    if d.len() == 0 {
        (st, Seq::empty())
    } else {
        let (s1, out) = remap_entries(env, st, src, d.drop_last(), depth);
        let (s2, o) = remap(env, s1, src, d.last().1, depth);
        (s2, out.push((d.last().0, o)))
    }
}

/// Copying a dictionary keeps its keys.
pub proof fn remap_entries_keys(env: Env, st: State, src: nat, d: Entries, depth: nat)
    ensures
        remap_entries(env, st, src, d, depth).1.len() == d.len(),
        forall|i: int|
            0 <= i < d.len() ==> (#[trigger] remap_entries(env, st, src, d, depth).1[i]).0 == d[i].0,
    decreases d.len(),
{
    if d.len() > 0 {
        remap_entries_keys(env, st, src, d.drop_last(), depth);
    }
}

/// The texts of a list of keys.
pub open spec fn keys_of(keys: Seq<&str>) -> Seq<Seq<char>> {
    keys.map_values(|k: &str| k@)
}

/// `into` with the entries of `from` under the given keys, each value copied by [`remap`].
pub open spec fn carry(
    env: Env,
    st: State,
    src: nat,
    from: Entries,
    keys: Seq<Seq<char>>,
    depth: nat,
    into: Entries,
) -> (State, Entries)
    decreases keys.len(),
{
    if keys.len() == 0 {
        (st, into)
    } else {
        let (s1, out) = carry(env, st, src, from, keys.drop_last(), depth, into);
        match dict_get(from, keys.last()) {
            Some(v) => {
                let (s2, o) = remap(env, s1, src, v, depth);
                (s2, dict_insert(out, keys.last(), o))
            },
            None => (s1, out),
        }
    }
}

/// What is carried from below the greatest depth does not depend on how deep it lies.
pub proof fn carry_below(
    env: Env,
    st: State,
    src: nat,
    from: Entries,
    keys: Seq<Seq<char>>,
    a: nat,
    b: nat,
    into: Entries,
)
    requires
        a > MAX_DEPTH,
        b > MAX_DEPTH,
    ensures
        carry(env, st, src, from, keys, a, into) == carry(env, st, src, from, keys, b, into),
    decreases keys.len(),
{
    if keys.len() > 0 {
        carry_below(env, st, src, from, keys.drop_last(), a, b, into);
    }
}

/// The state with `value` under `key` in the object of number `id`, where that is a dictionary.
pub open spec fn edit(st: State, id: nat, key: Seq<char>, value: Obj) -> State {
    match object_at(st, id) {
        Some(Obj::Dictionary(d)) => put(st, id, Obj::Dictionary(dict_insert(d, key, value))),
        _ => st,
    }
}

/// References to the given objects.
pub open spec fn refs(ids: Seq<nat>) -> Seq<Obj> {
    ids.map_values(|n: nat| new_ref(n))
}

/// An array of references to the given objects.
pub fn refs_array(ids: &Vec<usize>) -> (r: Object)
    ensures
        r@ == Obj::Array(refs(nats(ids@))),
{
    broadcast use array_view;

    let mut out: Vec<Object> = Vec::new();
    let mut i: usize = 0;
    while i < ids.len()
        invariant
            i <= ids@.len(),
            out@.len() == i,
            forall|j: int| 0 <= j < i ==> (#[trigger] out@[j])@ == new_ref(ids@[j] as nat),
        decreases ids@.len() - i,
    {
        out.push(Object::reference(ids[i]));
        i += 1;
    }
    assert(views(out@) =~= refs(nats(ids@)));
    Object::Array(out)
}

impl<'a> Builder<'a> {
    /// Put copies of the entries of `from` under the given keys into `into`.
    pub fn carry(&mut self, src: usize, from: &Dict, keys: &[&str], depth: usize, into: Dict) -> (r: Dict)
        requires
            src < old(self).env().docs.len(),
        ensures
            final(self).env() == old(self).env(),
            (final(self)@, r@) == carry(
                old(self).env(),
                old(self)@,
                src as nat,
                from@,
                keys_of(keys@),
                depth as nat,
                into@,
            ),
    {
        let mut out = into;
        let mut i: usize = 0;
        assert(keys_of(keys@).take(0) =~= Seq::empty());
        while i < keys.len()
            invariant
                i <= keys@.len(),
                src < self.env().docs.len(),
                self.env() == old(self).env(),
                (self@, out@) == carry(
                    old(self).env(),
                    old(self)@,
                    src as nat,
                    from@,
                    keys_of(keys@).take(i as int),
                    depth as nat,
                    into@,
                ),
            decreases keys@.len() - i,
        {
            proof {
                let t = keys_of(keys@).take(i + 1);
                assert(t.drop_last() =~= keys_of(keys@).take(i as int));
                assert(t.last() == keys@[i as int]@);
            }
            if let Some(v) = from.get(keys[i]) {
                let o = self.remap(src, v, depth);
                out.insert(keys[i], o);
            }
            i += 1;
        }
        assert(keys_of(keys@).take(i as int) =~= keys_of(keys@));
        out
    }

    /// Put `value` under `key` into the object of number `id`, where that is a dictionary.
    pub fn edit(&mut self, id: usize, key: &str, value: Object)
        ensures
            final(self).env() == old(self).env(),
            final(self)@ == edit(old(self)@, id as nat, key@, value@),
    {
        if 1 <= id && id <= self.slots.len() {
            let taken = self.take(id);
            match taken {
                Some(Object::Dictionary(d)) => {
                    let mut d = d;
                    d.insert(key, value);
                    self.put(id, Object::Dictionary(d));
                },
                Some(o) => {
                    self.put(id, o);
                },
                None => {},
            }
        }
        assert(self@.slots =~= edit(old(self)@, id as nat, key@, value@).slots);
    }

    /// `obj`, or the object that it points at in the source.
    pub fn resolve<'b>(&self, src: usize, obj: &'b Object) -> (r: Option<&'b Object>)
        where 'a: 'b
        requires
            src < self.env().docs.len(),
        ensures
            match r {
                Some(o) => resolve(self.env().docs[src as int], obj@) == Some(o@),
                None => resolve(self.env().docs[src as int], obj@) is None,
            },
    {
        let doc: &'a PdfDocument = self.sources[src];
        match obj {
            Object::Reference(r) => doc.load_object(*r),
            _ => Some(obj),
        }
    }

    /// Copy a source object, unless it was copied before. Gives its new number.
    pub fn import(&mut self, src: usize, source_ref: ObjectRef, depth: usize) -> (id: usize)
        requires
            src < old(self).env().docs.len(),
        ensures
            final(self).env() == old(self).env(),
            (final(self)@, id as nat) == import(
                old(self).env(),
                old(self)@,
                src as nat,
                source_ref.id as nat,
                depth as nat,
            ),
        decreases levels(depth as nat), 0nat,
    {
        if let Some(n) = self.id_map.get(src, source_ref.id) {
            return n;
        }
        let doc: &'a PdfDocument = self.sources[src];
        let new_id = self.allocate();
        self.id_map.insert(src, source_ref.id, new_id);
        let null = Object::Null;
        let obj: &Object = match doc.load_object(source_ref) {
            Some(o) => o,
            None => &null,
        };
        let remapped = if depth > MAX_DEPTH {
            Object::Null
        } else {
            self.remap(src, obj, depth + 1)
        };
        self.put(new_id, remapped);
        new_id
    }

    /// Copy what `obj` refers to, and give `obj` with its references turned to the copies.
    pub fn remap(&mut self, src: usize, obj: &Object, depth: usize) -> (r: Object)
        requires
            src < old(self).env().docs.len(),
        ensures
            final(self).env() == old(self).env(),
            (final(self)@, r@) == remap(
                old(self).env(),
                old(self)@,
                src as nat,
                obj@,
                depth as nat,
            ),
        decreases levels(depth as nat), 1nat,
    {
        broadcast use array_view;

        if depth > MAX_DEPTH {
            return Object::Null;
        }
        match obj {
            Object::Reference(r) => {
                if let Some(page) = self.page_id_map.get(src, r.id) {
                    return Object::reference(page);
                }
                if self.severed.contains(src, r.id) {
                    return Object::Null;
                }
                let new_id = self.import(src, *r, depth);
                Object::reference(new_id)
            },
            Object::Array(items) => {
                let mut out: Vec<Object> = Vec::new();
                let mut i: usize = 0;
                assert(views(items@).take(0) =~= Seq::empty());
                assert(views(out@) =~= Seq::empty());
                while i < items.len()
                    invariant
                        i <= items@.len(),
                        src < self.env().docs.len(),
                        depth <= MAX_DEPTH,
                        self.env() == old(self).env(),
                        (self@, views(out@)) == remap_items(
                            old(self).env(),
                            old(self)@,
                            src as nat,
                            views(items@).take(i as int),
                            (depth + 1) as nat,
                        ),
                    decreases items@.len() - i,
                {
                    let o = self.remap(src, &items[i], depth + 1);
                    proof {
                        let t = views(items@).take(i + 1);
                        assert(t.drop_last() =~= views(items@).take(i as int));
                        assert(t.last() == items@[i as int]@);
                    }
                    let ghost before = views(out@);
                    out.push(o);
                    assert(views(out@) =~= before.push(o@));
                    i += 1;
                }
                assert(views(items@).take(i as int) =~= views(items@));
                Object::Array(out)
            },
            Object::Dictionary(d) => {
                let out = self.remap_dict(src, d, depth + 1);
                Object::Dictionary(out)
            },
            Object::Stream { dict, data } => {
                let out = self.remap_dict(src, dict, depth + 1);
                let bytes = data.clone();
                assert(bytes@ =~= data@);
                Object::Stream { dict: out, data: bytes }
            },
            _ => obj.clone(),
        }
    }

    /// [`Self::remap`] on the value of each entry of a dictionary.
    pub fn remap_dict(&mut self, src: usize, dict: &Dict, depth: usize) -> (r: Dict)
        requires
            src < old(self).env().docs.len(),
        ensures
            final(self).env() == old(self).env(),
            (final(self)@, r@) == remap_entries(
                old(self).env(),
                old(self)@,
                src as nat,
                dict@,
                depth as nat,
            ),
        decreases levels(depth as nat), 2nat,
    {
        let n = dict.len();
        let mut out: Vec<(String, Object)> = Vec::new();
        let mut i: usize = 0;
        assert(dict@.take(0) =~= Seq::empty());
        assert(entry_views(out@) =~= Seq::empty());
        while i < n
            invariant
                i <= n == dict@.len(),
                src < self.env().docs.len(),
                self.env() == old(self).env(),
                (self@, entry_views(out@)) == remap_entries(
                    old(self).env(),
                    old(self)@,
                    src as nat,
                    dict@.take(i as int),
                    depth as nat,
                ),
            decreases n - i,
        {
            let o = self.remap(src, dict.value_at(i), depth);
            proof {
                let t = dict@.take(i + 1);
                assert(t.drop_last() =~= dict@.take(i as int));
                assert(t.last() == dict@[i as int]);
            }
            let ghost before = entry_views(out@);
            let key = dict.key_at(i).clone();
            out.push((key, o));
            assert(entry_views(out@) =~= before.push((key@, o@)));
            i += 1;
        }
        assert(dict@.take(i as int) =~= dict@);
        proof {
            remap_entries_keys(old(self).env(), old(self)@, src as nat, dict@, depth as nat);
            let e = entry_views(out@);
            assert forall|m: int, k: int| 0 <= m < k < e.len() implies crate::text::key_lt(
                #[trigger] e[m].0,
                #[trigger] e[k].0,
            ) by {
                assert(crate::text::key_lt(dict@[m].0, dict@[k].0));
            }
        }
        Dict::from_sorted(out)
    }
}

} // verus!
