//! A table from names to values, each name present at most once.
use vstd::prelude::*;

use crate::keyorder::same_key;

verus! {

/// A table of counts as a map to mathematical integers.
pub open spec fn counts_view(m: Map<Seq<char>, usize>) -> Map<Seq<char>, nat> {
    m.map_values(|c: usize| c as nat)
}

/// What a table can hold: a value with an invariant of its own and a score,
/// by which the largest entries of a table are chosen.
pub trait Scored: View + Sized {
    spec fn inv(&self) -> bool;

    spec fn score_of(v: Self::V) -> nat;

    fn score(&self) -> (r: usize)
        requires
            self.inv(),
        ensures
            r as nat == Self::score_of(self@),
    ;
}

impl Scored for usize {
    open spec fn inv(&self) -> bool {
        true
    }

    open spec fn score_of(v: usize) -> nat {
        v as nat
    }

    fn score(&self) -> (r: usize) {
        *self
    }
}

/// An association list from names to values; its view is the finite map it holds.
#[verifier::reject_recursive_types(V)]
pub struct KeyTable<V: Scored> {
    entries: Vec<(String, V)>,
    contents: Ghost<Map<Seq<char>, V::V>>,
}

impl<V: Scored> View for KeyTable<V> {
    type V = Map<Seq<char>, V::V>;

    closed spec fn view(&self) -> Map<Seq<char>, V::V> {
        self.contents@
    }
}

impl<V: Scored> KeyTable<V> {
    /// Names are unique, and the entries hold exactly the map of the view.
    pub closed spec fn wf(&self) -> bool {
        let e = self.entries@;
        let m = self.contents@;
        &&& forall|i: int, j: int|
            0 <= i < e.len() && 0 <= j < e.len() && i != j ==> #[trigger] e[i].0@ != #[trigger] e[j].0@
        &&& forall|i: int|
            #![trigger e[i]]
            0 <= i < e.len() ==> m.contains_key(e[i].0@) && m[e[i].0@] == e[i].1@ && e[i].1.inv()
        &&& forall|k: Seq<char>|
            #[trigger] m.contains_key(k) ==> exists|i: int| 0 <= i < e.len() && e[i].0@ == k
        &&& m.dom().finite()
        &&& m.len() == e.len()
    }

    /// A well-formed table holds finitely many names.
    pub proof fn lemma_finite(&self)
        requires
            self.wf(),
        ensures
            self@.dom().finite(),
    {
    }

    /// An empty table.
    pub fn new() -> (r: Self)
        ensures
            r.wf(),
            r@ == Map::<Seq<char>, V::V>::empty(),
    {
        KeyTable { entries: Vec::new(), contents: Ghost(Map::empty()) }
    }

    /// The number of names held.
    pub fn len(&self) -> (r: usize)
        requires
            self.wf(),
        ensures
            r == self@.len(),
    {
        self.entries.len()
    }

    /// Whether no name is held.
    pub fn is_empty(&self) -> (r: bool)
        requires
            self.wf(),
        ensures
            r == (self@.len() == 0),
    {
        self.entries.len() == 0
    }

    fn find(&self, key: &str) -> (r: Option<usize>)
        requires
            self.wf(),
        ensures
            match r {
                Some(i) => i < self.entries@.len() && self.entries@[i as int].0@ == key@,
                None => !self@.contains_key(key@),
            },
    {
        let mut i: usize = 0;
        while i < self.entries.len()
            invariant
                self.wf(),
                i <= self.entries@.len(),
                forall|j: int| 0 <= j < i ==> #[trigger] self.entries@[j].0@ != key@,
            decreases self.entries@.len() - i,
        {
            if same_key(self.entries[i].0.as_str(), key) {
                return Some(i);
            }
            i = i + 1;
        }
        None
    }

    /// Whether `key` is held.
    pub fn contains_key(&self, key: &str) -> (r: bool)
        requires
            self.wf(),
        ensures
            r == self@.contains_key(key@),
    {
        match self.find(key) {
            Some(i) => {
                assert(self.entries@[i as int].0@ == key@);
                true
            },
            None => false,
        }
    }

    /// The value held under `key`, if any.
    pub fn get(&self, key: &str) -> (r: Option<&V>)
        requires
            self.wf(),
        ensures
            match r {
                Some(v) => self@.contains_key(key@) && v@ == self@[key@],
                None => !self@.contains_key(key@),
            },
    {
        match self.find(key) {
            Some(i) => {
                assert(self.entries@[i as int].0@ == key@);
                Some(&self.entries[i].1)
            },
            None => None,
        }
    }

    /// Removes the entry at position `i` and hands it back.
    fn remove_at(&mut self, i: usize) -> (r: (String, V))
        requires
            old(self).wf(),
            i < old(self).entries@.len(),
        ensures
            final(self).wf(),
            r == old(self).entries@[i as int],
            r.1.inv(),
            old(self)@.contains_key(r.0@),
            r.1@ == old(self)@[r.0@],
            final(self)@ == old(self)@.remove(r.0@),
    {
        let ghost e = self.entries@;
        let ghost m = self.contents@;
        let ghost n = e.len();
        assert(m.contains_key(e[i as int].0@));
        let r = self.entries.swap_remove(i);
        let ghost m2 = m.remove(r.0@);
        self.contents = Ghost(m2);
        proof {
            let e2 = self.entries@;
            assert(e2 == e.update(i as int, e.last()).drop_last());
            assert forall|k: Seq<char>| #[trigger] m2.contains_key(k) implies exists|j: int|
                0 <= j < e2.len() && e2[j].0@ == k by {
                let j = choose|j: int| 0 <= j < e.len() && e[j].0@ == k;
                if j == n - 1 {
                    assert(e2[i as int].0@ == k);
                } else {
                    assert(e2[j].0@ == k);
                }
            }
            assert forall|a: int, b: int|
                0 <= a < e2.len() && 0 <= b < e2.len() && a != b implies #[trigger] e2[a].0@
                != #[trigger] e2[b].0@ by {
                let a0 = if a == i { n - 1 } else { a };
                let b0 = if b == i { n - 1 } else { b };
                assert(e2[a] == e[a0]);
                assert(e2[b] == e[b0]);
            }
            assert forall|j: int| #![trigger e2[j]] 0 <= j < e2.len() implies m2.contains_key(
                e2[j].0@) && m2[e2[j].0@] == e2[j].1@ by {
                let j0 = if j == i { n - 1 } else { j };
                assert(e2[j] == e[j0]);
                assert(e[j0].0@ != e[i as int].0@);
            }
        }
        r
    }

    /// Removes `key` and hands back its entry, if it was held.
    pub fn take(&mut self, key: &str) -> (r: Option<(String, V)>)
        requires
            old(self).wf(),
        ensures
            final(self).wf(),
            match r {
                Some(p) => {
                    &&& old(self)@.contains_key(key@)
                    &&& p.0@ == key@
                    &&& p.1@ == old(self)@[key@]
                    &&& p.1.inv()
                    &&& final(self)@ == old(self)@.remove(key@)
                },
                None => !old(self)@.contains_key(key@) && final(self)@ == old(self)@,
            },
    {
        match self.find(key) {
            Some(i) => Some(self.remove_at(i)),
            None => None,
        }
    }

    /// Removes some entry and hands it back; `None` only when the table is empty.
    pub fn pop(&mut self) -> (r: Option<(String, V)>)
        requires
            old(self).wf(),
        ensures
            final(self).wf(),
            match r {
                Some(p) => {
                    &&& old(self)@.contains_key(p.0@)
                    &&& p.1@ == old(self)@[p.0@]
                    &&& p.1.inv()
                    &&& final(self)@ == old(self)@.remove(p.0@)
                    &&& final(self)@.len() + 1 == old(self)@.len()
                },
                None => old(self)@ == Map::<Seq<char>, V::V>::empty() && final(self)@ == old(self)@,
            },
    {
        let n = self.entries.len();
        if n == 0 {
            proof {
                self.contents@.dom().lemma_len0_is_empty();
                assert(self.contents@ =~= Map::empty());
            }
            None
        } else {
            Some(self.remove_at(n - 1))
        }
    }

    /// Adds an entry under a name that is not held yet.
    pub fn insert_new(&mut self, key: String, value: V)
        requires
            old(self).wf(),
            !old(self)@.contains_key(key@),
            value.inv(),
        ensures
            final(self).wf(),
            final(self)@ == old(self)@.insert(key@, value@),
    {
        let ghost e = self.entries@;
        let ghost m = self.contents@;
        let ghost k = key@;
        let ghost v = value@;
        self.entries.push((key, value));
        self.contents = Ghost(m.insert(k, v));
        proof {
            let e2 = self.entries@;
            let m2 = self.contents@;
            assert(e2 == e.push(e2.last()));
            assert forall|j: int| 0 <= j < e.len() implies #[trigger] e[j].0@ != k by {
                assert(m.contains_key(e[j].0@));
            }
            assert forall|q: Seq<char>| #[trigger] m2.contains_key(q) implies exists|j: int|
                0 <= j < e2.len() && e2[j].0@ == q by {
                if q == k {
                    assert(e2[e.len() as int].0@ == q);
                } else {
                    let j = choose|j: int| 0 <= j < e.len() && e[j].0@ == q;
                    assert(e2[j].0@ == q);
                }
            }
            assert forall|a: int, b: int|
                0 <= a < e2.len() && 0 <= b < e2.len() && a != b implies #[trigger] e2[a].0@
                != #[trigger] e2[b].0@ by {
                if a < e.len() && b < e.len() {
                    assert(e2[a] == e[a] && e2[b] == e[b]);
                } else if a < e.len() {
                    assert(e2[a] == e[a]);
                } else {
                    assert(e2[b] == e[b]);
                }
            }
            assert forall|j: int| #![trigger e2[j]] 0 <= j < e2.len() implies m2.contains_key(
                e2[j].0@) && m2[e2[j].0@] == e2[j].1@ by {
                if j < e.len() {
                    assert(e2[j] == e[j]);
                }
            }
        }
    }

    /// The entries, in no particular order.
    pub fn entries(&self) -> (r: &Vec<(String, V)>)
        requires
            self.wf(),
        ensures
            r@.len() == self@.len(),
            forall|i: int|
                #![trigger r@[i]]
                0 <= i < r@.len() ==> self@.contains_key(r@[i].0@) && self@[r@[i].0@] == r@[i].1@
                    && r@[i].1.inv(),
            forall|k: Seq<char>|
                #[trigger] self@.contains_key(k) ==> exists|i: int| 0 <= i < r@.len() && r@[i].0@ == k,
            forall|i: int, j: int|
                0 <= i < r@.len() && 0 <= j < r@.len() && i != j ==> #[trigger] r@[i].0@
                    != #[trigger] r@[j].0@,
    {
        &self.entries
    }
}

} // verus!
