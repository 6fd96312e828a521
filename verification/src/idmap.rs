//! Tables of object numbers, and a counter.

use vstd::prelude::*;
use std::collections::{HashMap, HashSet};

verus! {

broadcast use vstd::std_specs::hash::group_hash_axioms;

/// A table from (source index, object number in the source) to a new object number.
pub struct IdMap {
    maps: Vec<HashMap<usize, usize>>,
}

impl View for IdMap {
    type V = Map<(nat, nat), nat>;

    closed spec fn view(&self) -> Map<(nat, nat), nat> {
        Map::new(
            |k: (nat, nat)|
                k.0 < self.maps@.len() && k.1 <= usize::MAX && self.maps@[k.0 as int]@.contains_key(
                    k.1 as usize,
                ),
            |k: (nat, nat)| self.maps@[k.0 as int]@[k.1 as usize] as nat,
        )
    }
}

impl IdMap {
    pub fn new() -> (m: Self)
        ensures
            m@ == Map::<(nat, nat), nat>::empty(),
    {
        let m = IdMap { maps: Vec::new() };
        assert(m@ =~= Map::empty());
        m
    }

    pub fn get(&self, src: usize, id: usize) -> (r: Option<usize>)
        ensures
            match r {
                Some(n) => self@.contains_key((src as nat, id as nat)) && self@[(src as nat, id as nat)] == n,
                None => !self@.contains_key((src as nat, id as nat)),
            },
    {
        if src < self.maps.len() {
            match self.maps[src].get(&id) {
                Some(n) => Some(*n),
                None => None,
            }
        } else {
            None
        }
    }

    pub fn insert(&mut self, src: usize, id: usize, new_id: usize)
        ensures
            final(self)@ == old(self)@.insert((src as nat, id as nat), new_id as nat),
    {
        while self.maps.len() <= src
            invariant
                self@ == old(self)@,
            decreases src + 1 - self.maps@.len(),
        {
            self.maps.push(HashMap::new());
            assert(self@ =~= old(self)@);
        }
        self.maps[src].insert(id, new_id);
        assert(self@ =~= old(self)@.insert((src as nat, id as nat), new_id as nat));
    }
}

/// A set of (source index, object number in the source).
pub struct IdSet {
    sets: Vec<HashSet<usize>>,
}

impl View for IdSet {
    type V = Set<(nat, nat)>;

    closed spec fn view(&self) -> Set<(nat, nat)> {
        Set::new(
            |k: (nat, nat)|
                k.0 < self.sets@.len() && k.1 <= usize::MAX && self.sets@[k.0 as int]@.contains(
                    k.1 as usize,
                ),
        )
    }
}

impl IdSet {
    pub fn new() -> (s: Self)
        ensures
            s@ == Set::<(nat, nat)>::empty(),
    {
        let s = IdSet { sets: Vec::new() };
        assert(s@ =~= Set::empty());
        s
    }

    pub fn contains(&self, src: usize, id: usize) -> (r: bool)
        ensures
            r == self@.contains((src as nat, id as nat)),
    {
        src < self.sets.len() && self.sets[src].contains(&id)
    }

    pub fn insert(&mut self, src: usize, id: usize)
        ensures
            final(self)@ == old(self)@.insert((src as nat, id as nat)),
    {
        while self.sets.len() <= src
            invariant
                self@ == old(self)@,
            decreases src + 1 - self.sets@.len(),
        {
            self.sets.push(HashSet::new());
            assert(self@ =~= old(self)@);
        }
        self.sets[src].insert(id);
        assert(self@ =~= old(self)@.insert((src as nat, id as nat)));
    }
}

/// A counter: one mark for each thing that was counted.
pub struct Tally {
    marks: Vec<()>,
}

impl View for Tally {
    type V = nat;

    closed spec fn view(&self) -> nat {
        self.marks@.len()
    }
}

impl Tally {
    pub fn new() -> (t: Self)
        ensures
            t@ == 0,
    {
        Tally { marks: Vec::new() }
    }

    /// Count one thing more.
    pub fn bump(&mut self)
        ensures
            final(self)@ == old(self)@ + 1,
    {
        self.marks.push(());
    }

    /// How many things were counted.
    pub fn count(&self) -> (n: usize)
        ensures
            n == self@,
    {
        self.marks.len()
    }
}

/// A set of names.
pub struct NameSet {
    names: Vec<String>,
}

impl View for NameSet {
    type V = Set<Seq<char>>;

    closed spec fn view(&self) -> Set<Seq<char>> {
        Set::new(|n: Seq<char>| exists|i: int| 0 <= i < self.names@.len() && (#[trigger] self.names@[i])@ == n)
    }
}

impl NameSet {
    pub fn new() -> (s: Self)
        ensures
            s@ == Set::<Seq<char>>::empty(),
    {
        let s = NameSet { names: Vec::new() };
        assert(s@ =~= Set::empty());
        s
    }

    pub fn contains(&self, name: &String) -> (r: bool)
        ensures
            r == self@.contains(name@),
    {
        let mut i: usize = 0;
        while i < self.names.len()
            invariant
                i <= self.names@.len(),
                forall|j: int| 0 <= j < i ==> (#[trigger] self.names@[j])@ != name@,
            decreases self.names@.len() - i,
        {
            if self.names[i] == *name {
                assert(self.names@[i as int]@ == name@);
                return true;
            }
            i += 1;
        }
        false
    }

    pub fn insert(&mut self, name: &String)
        ensures
            final(self)@ == old(self)@.insert(name@),
    {
        let known = self.contains(name);
        if !known {
            self.names.push(name.clone());
        }
        proof {
            let a = old(self).names@;
            let b = self.names@;
            assert forall|n: Seq<char>| self@.contains(n) == old(self)@.insert(name@).contains(n) by {
                if old(self)@.contains(n) {
                    let i = choose|i: int| 0 <= i < a.len() && (#[trigger] a[i])@ == n;
                    assert(b[i]@ == n);
                }
                if n == name@ && !known {
                    assert(b[b.len() - 1]@ == n);
                }
                if self@.contains(n) {
                    let i = choose|i: int| 0 <= i < b.len() && (#[trigger] b[i])@ == n;
                    if i < a.len() {
                        assert(a[i]@ == n);
                    }
                }
            }
            assert(self@ =~= old(self)@.insert(name@));
        }
    }

    pub fn is_empty(&self) -> (r: bool)
        ensures
            r == (self@ == Set::<Seq<char>>::empty()),
    {
        proof {
            if self.names@.len() > 0 {
                assert(self.names@[0]@ == self.names@[0]@);
                assert(self@.contains(self.names@[0]@));
            } else {
                assert(self@ =~= Set::empty());
            }
        }
        self.names.len() == 0
    }
}

} // verus!
