//! A bounded container that keeps the `k` highest-ranked entries pushed into it.
//!
//! Entries rank by value, higher first; between equal values the name that comes
//! first in the tie-break order on names ranks higher.
use vstd::prelude::*;
use vstd::set_lib::{lemma_len_subset, lemma_subset_equality};

use crate::keyorder::{key_before, lemma_key_order, precedes};
use crate::table::{KeyTable, counts_view};

verus! {

/// `a` ranks strictly above `b` under the scores `m`.
pub open spec fn outranks(m: Map<Seq<char>, nat>, a: Seq<char>, b: Seq<char>) -> bool {
    m[a] > m[b] || (m[a] == m[b] && key_before(a, b))
}

/// The smaller of two counts.
pub open spec fn min_nat(a: nat, b: nat) -> nat {
    if a < b {
        a
    } else {
        b
    }
}

/// `kept` holds the `k` highest-ranked names of `scores`, or all of them when there
/// are fewer.
pub open spec fn is_top(kept: Set<Seq<char>>, scores: Map<Seq<char>, nat>, k: nat) -> bool {
    &&& kept.finite()
    &&& kept.subset_of(scores.dom())
    &&& kept.len() == min_nat(k, scores.dom().len())
    &&& forall|a: Seq<char>, b: Seq<char>|
        #![trigger kept.contains(a), kept.contains(b)]
        kept.contains(a) && scores.contains_key(b) && !kept.contains(b) ==> outranks(scores, a, b)
}

/// `part` is `whole` cut down to the `k` highest-ranked names under `scores`.
pub open spec fn keeps_top<V>(
    part: Map<Seq<char>, V>,
    whole: Map<Seq<char>, V>,
    scores: Map<Seq<char>, nat>,
    k: nat,
) -> bool {
    &&& is_top(part.dom(), scores, k)
    &&& part == whole.restrict(part.dom())
}

/// The ranking is a strict total order on the names of `m`.
pub proof fn lemma_outranks_order(m: Map<Seq<char>, nat>, a: Seq<char>, b: Seq<char>, c: Seq<char>)
    ensures
        !outranks(m, a, a),
        outranks(m, a, b) ==> !outranks(m, b, a),
        outranks(m, a, b) && outranks(m, b, c) ==> outranks(m, a, c),
        a != b ==> outranks(m, a, b) || outranks(m, b, a),
{
    lemma_key_order(a, b, c);
}

/// Keeping the top `k` of a set of names that has at most `k` keeps all of them.
pub proof fn lemma_top_of_few(kept: Set<Seq<char>>, scores: Map<Seq<char>, nat>, k: nat)
    requires
        is_top(kept, scores, k),
        scores.dom().finite(),
        scores.dom().len() <= k,
    ensures
        kept == scores.dom(),
{
    lemma_subset_equality(kept, scores.dom());
}

/// When all scores differ, the names kept are exactly those with the greatest
/// scores: each of them has a greater score than every name left out.
pub proof fn lemma_top_by_value(kept: Set<Seq<char>>, scores: Map<Seq<char>, nat>, k: nat)
    requires
        is_top(kept, scores, k),
        forall|a: Seq<char>, b: Seq<char>|
            scores.contains_key(a) && scores.contains_key(b) && a != b ==> #[trigger] scores[a]
                != #[trigger] scores[b],
    ensures
        kept.len() == min_nat(k, scores.dom().len()),
        forall|a: Seq<char>, b: Seq<char>|
            #![trigger kept.contains(a), kept.contains(b)]
            kept.contains(a) && scores.contains_key(b) && !kept.contains(b) ==> scores[a] > scores[b],
{
    assert forall|a: Seq<char>, b: Seq<char>|
        #![trigger kept.contains(a), kept.contains(b)]
        kept.contains(a) && scores.contains_key(b) && !kept.contains(b) implies scores[a]
        > scores[b] by {
        assert(outranks(scores, a, b));
        assert(scores[a] != scores[b]);
    }
}

/// The names kept are determined: two sets that both hold the top `k` are equal.
pub proof fn lemma_top_unique(
    kept1: Set<Seq<char>>,
    kept2: Set<Seq<char>>,
    scores: Map<Seq<char>, nat>,
    k: nat,
)
    requires
        is_top(kept1, scores, k),
        is_top(kept2, scores, k),
    ensures
        kept1 == kept2,
{
    if exists|x: Seq<char>| kept1.contains(x) && !kept2.contains(x) {
        let x = choose|x: Seq<char>| kept1.contains(x) && !kept2.contains(x);
        // every name kept in the second set outranks `x`, which outranks every name
        // left out of the first, so the second set lies in the first minus `x`
        assert forall|y: Seq<char>| kept2.contains(y) implies kept1.remove(x).contains(y) by {
            if !kept1.contains(y) {
                assert(outranks(scores, x, y));
                assert(outranks(scores, y, x));
                lemma_outranks_order(scores, x, y, x);
            }
        }
        lemma_len_subset(kept2, kept1.remove(x));
    }
    if exists|x: Seq<char>| kept2.contains(x) && !kept1.contains(x) {
        let x = choose|x: Seq<char>| kept2.contains(x) && !kept1.contains(x);
        assert forall|y: Seq<char>| kept1.contains(y) implies kept2.remove(x).contains(y) by {
            if !kept2.contains(y) {
                assert(outranks(scores, x, y));
                assert(outranks(scores, y, x));
                lemma_outranks_order(scores, x, y, x);
            }
        }
        lemma_len_subset(kept1, kept2.remove(x));
    }
    assert(kept1 =~= kept2);
}

/// The top `k` of `scores` that lie within a set `t` of names are also the top `k`
/// of `scores` cut down to `t`.
pub proof fn lemma_top_within(
    kept: Set<Seq<char>>,
    scores: Map<Seq<char>, nat>,
    t: Set<Seq<char>>,
    k: nat,
)
    requires
        is_top(kept, scores, k),
        scores.dom().finite(),
        kept.subset_of(t),
        t.subset_of(scores.dom()),
    ensures
        is_top(kept, scores.restrict(t), k),
{
    let r = scores.restrict(t);
    assert(r.dom() =~= t);
    lemma_len_subset(kept, t);
    lemma_len_subset(t, scores.dom());
    assert forall|a: Seq<char>, b: Seq<char>|
        #![trigger kept.contains(a), kept.contains(b)]
        kept.contains(a) && r.contains_key(b) && !kept.contains(b) implies outranks(r, a, b) by {
        assert(outranks(scores, a, b));
    }
}

/// Keeping the top `k` of `a` together with the top `k` of `b`, on disjoint names,
/// keeps the top `k` of `a` and `b` together.
pub proof fn lemma_top_of_union(
    a: Map<Seq<char>, nat>,
    b: Map<Seq<char>, nat>,
    kb: Set<Seq<char>>,
    kept: Set<Seq<char>>,
    k: nat,
)
    requires
        forall|x: Seq<char>| #[trigger] b.contains_key(x) ==> !a.contains_key(x),
        a.dom().finite(),
        b.dom().finite(),
        is_top(kb, b, k),
        is_top(kept, a.union_prefer_right(b.restrict(kb)), k),
    ensures
        is_top(kept, a.union_prefer_right(b), k),
{
    let u = a.union_prefer_right(b);
    let u2 = a.union_prefer_right(b.restrict(kb));
    assert(u.dom() =~= a.dom().union(b.dom()));
    assert(u2.dom() =~= a.dom().union(kb));
    if b.dom().len() <= k {
        lemma_top_of_few(kb, b, k);
        assert(u2 =~= u);
    } else {
        lemma_len_subset(kb, u2.dom());
        lemma_len_subset(u2.dom(), u.dom());
        assert forall|x: Seq<char>, y: Seq<char>|
            #![trigger kept.contains(x), kept.contains(y)]
            kept.contains(x) && u.contains_key(y) && !kept.contains(y) implies outranks(u, x, y) by {
            if u2.contains_key(y) {
                assert(outranks(u2, x, y));
            } else {
                assert(b.contains_key(y) && !kb.contains(y));
                if kb.contains(x) {
                    assert(outranks(b, x, y));
                } else {
                    // some name kept from `b` is left out of `kept`, and `x` outranks it
                    if kb.subset_of(kept) {
                        lemma_len_subset(kb.insert(x), kept);
                    }
                    let h = choose|h: Seq<char>| kb.contains(h) && !kept.contains(h);
                    assert(outranks(u2, x, h));
                    assert(outranks(b, h, y));
                    lemma_outranks_order(u, x, h, y);
                }
            }
        }
    }
}

/// Merging the pairs held by three selectors on disjoint names keeps the same names
/// whichever two are merged first: the top `k` of all three.
pub proof fn lemma_merge_grouping(
    a: Map<Seq<char>, nat>,
    b: Map<Seq<char>, nat>,
    c: Map<Seq<char>, nat>,
    kab: Set<Seq<char>>,
    kbc: Set<Seq<char>>,
    k1: Set<Seq<char>>,
    k2: Set<Seq<char>>,
    k: nat,
)
    requires
        a.dom().finite(),
        b.dom().finite(),
        c.dom().finite(),
        forall|x: Seq<char>| #[trigger] a.contains_key(x) ==> !b.contains_key(x) && !c.contains_key(x),
        forall|x: Seq<char>| #[trigger] b.contains_key(x) ==> !c.contains_key(x),
        is_top(kab, a.union_prefer_right(b), k),
        is_top(k1, a.union_prefer_right(b).restrict(kab).union_prefer_right(c), k),
        is_top(kbc, b.union_prefer_right(c), k),
        is_top(k2, a.union_prefer_right(b.union_prefer_right(c).restrict(kbc)), k),
    ensures
        k1 == k2,
        is_top(k1, a.union_prefer_right(b).union_prefer_right(c), k),
{
    let ab = a.union_prefer_right(b);
    let bc = b.union_prefer_right(c);
    let all = ab.union_prefer_right(c);
    assert(ab.dom() =~= a.dom().union(b.dom()));
    assert(bc.dom() =~= b.dom().union(c.dom()));
    assert(c.union_prefer_right(ab.restrict(kab)) =~= ab.restrict(kab).union_prefer_right(c));
    lemma_top_of_union(c, ab, kab, k1, k);
    assert(c.union_prefer_right(ab) =~= all);
    lemma_top_of_union(a, bc, kbc, k2, k);
    assert(a.union_prefer_right(bc) =~= all);
    lemma_top_unique(k1, k2, all, k);
}

/// A capped container of (name, value) pairs that keeps the highest-ranked ones.
pub struct CappedTopMap {
    held: KeyTable<usize>,
    capacity: usize,
    seen: Ghost<Map<Seq<char>, nat>>,
}

impl CappedTopMap {
    /// Every name pushed so far, with the value it was last pushed with.
    pub closed spec fn seen(&self) -> Map<Seq<char>, nat> {
        self.seen@
    }

    /// The pairs held.
    pub closed spec fn kept(&self) -> Map<Seq<char>, nat> {
        counts_view(self.held@)
    }

    /// The most pairs held at once.
    pub closed spec fn capacity(&self) -> nat {
        self.capacity as nat
    }

    /// The pairs held are the highest-ranked of the pairs seen.
    pub closed spec fn wf(&self) -> bool {
        &&& self.held.wf()
        &&& self.seen@.dom().finite()
        &&& keeps_top(self.kept(), self.seen@, self.seen@, self.capacity as nat)
    }

    /// Creates an empty selector that keeps at most `capacity` pairs.
    pub fn new(capacity: usize) -> (r: Self)
        ensures
            r.wf(),
            r.capacity() == capacity,
            r.seen() == Map::<Seq<char>, nat>::empty(),
            r.kept() == Map::<Seq<char>, nat>::empty(),
            keeps_top(r.kept(), r.seen(), r.seen(), r.capacity()),
    {
        let r = CappedTopMap { held: KeyTable::new(), capacity, seen: Ghost(Map::empty()) };
        proof {
            assert(r.kept() =~= Map::empty());
            assert(r.kept().dom() =~= Set::empty());
            assert(r.seen@.restrict(Set::empty()) =~= r.kept());
        }
        r
    }

    proof fn lemma_held(&self, k: Seq<char>)
        requires
            self.wf(),
            self.held@.contains_key(k),
        ensures
            self.kept().contains_key(k),
            self.seen@.contains_key(k),
            self.seen@[k] == self.held@[k] as nat,
            self.kept()[k] == self.held@[k] as nat,
    {
        assert(self.kept().contains_key(k));
        assert(self.seen@.restrict(self.kept().dom()).contains_key(k));
        assert(self.kept()[k] == self.seen@.restrict(self.kept().dom())[k]);
    }

    /// The lowest-ranked pair held.
    fn lowest(&self) -> (r: (String, usize))
        requires
            self.wf(),
            self.kept().len() > 0,
        ensures
            self.kept().contains_key(r.0@),
            self.kept()[r.0@] == r.1,
            forall|h: Seq<char>|
                #[trigger] self.kept().contains_key(h) && h != r.0@ ==> outranks(self.seen@, h, r.0@),
    {
        let es = self.held.entries();
        proof {
            self.held.lemma_finite();
        }
        let mut best: usize = 0;
        let mut i: usize = 1;
        assert(self.kept().dom() =~= self.held@.dom());
        assert(es@.len() > 0);
        while i < es.len()
            invariant
                self.wf(),
                es@.len() == self.held@.len(),
                forall|j: int|
                    #![trigger es@[j]]
                    0 <= j < es@.len() ==> self.held@.contains_key(es@[j].0@)
                        && self.held@[es@[j].0@] == es@[j].1,
                forall|j: int, l: int|
                    0 <= j < es@.len() && 0 <= l < es@.len() && j != l ==> #[trigger] es@[j].0@
                        != #[trigger] es@[l].0@,
                best < i <= es@.len(),
                forall|j: int|
                    #![trigger es@[j]]
                    0 <= j < i && j != best ==> outranks(self.seen@, es@[j].0@, es@[best as int].0@),
            decreases es@.len() - i,
        {
            let ghost m = self.seen@;
            let below = es[i].1 < es[best].1 || (es[i].1 == es[best].1 && precedes(
                es[best].0.as_str(),
                es[i].0.as_str(),
            ));
            proof {
                self.lemma_held(es@[i as int].0@);
                self.lemma_held(es@[best as int].0@);
            }
            if below {
                proof {
                    assert forall|j: int| #![trigger es@[j]] 0 <= j < i + 1 && j != i implies outranks(
                        m,
                        es@[j].0@,
                        es@[i as int].0@,
                    ) by {
                        lemma_outranks_order(m, es@[j].0@, es@[best as int].0@, es@[i as int].0@);
                    }
                }
                best = i;
            } else {
                proof {
                    lemma_outranks_order(m, es@[i as int].0@, es@[best as int].0@, es@[i as int].0@);
                }
            }
            i = i + 1;
        }
        proof {
            assert forall|h: Seq<char>|
                #[trigger] self.kept().contains_key(h) && h != es@[best as int].0@ implies outranks(
                self.seen@,
                h,
                es@[best as int].0@,
            ) by {
                let j = choose|j: int| 0 <= j < es@.len() && es@[j].0@ == h;
                assert(es@[j].0@ == h);
            }
            self.lemma_held(es@[best as int].0@);
        }
        (es[best].0.clone(), es[best].1)
    }

    /// Pushes a pair whose name is not held. While fewer than `capacity` pairs are
    /// held it is kept; otherwise it replaces the lowest-ranked pair held when it
    /// ranks above it, and is dropped when not. The pairs held afterwards are the
    /// top `capacity` of those held before together with the new one.
    pub fn push(&mut self, key: String, value: usize)
        requires
            old(self).wf(),
            !old(self).kept().contains_key(key@),
        ensures
            final(self).wf(),
            final(self).capacity() == old(self).capacity(),
            final(self).seen() == old(self).seen().insert(key@, value as nat),
            keeps_top(final(self).kept(), final(self).seen(), final(self).seen(), final(self).capacity()),
            keeps_top(
                final(self).kept(),
                old(self).kept().insert(key@, value as nat),
                old(self).kept().insert(key@, value as nat),
                final(self).capacity(),
            ),
    {
        let ghost s_old = self.seen@;
        let ghost kept_old = self.kept();
        proof {
            // a name pushed before and no longer held ranks below every pair held, so
            // forgetting its earlier value keeps the pairs held at the top
            self.held.lemma_finite();
            assert(kept_old.dom() =~= self.held@.dom());
            if s_old.contains_key(key@) {
                lemma_top_within(
                    kept_old.dom(),
                    s_old,
                    s_old.dom().remove(key@),
                    self.capacity as nat,
                );
                assert(s_old.restrict(s_old.dom().remove(key@)) =~= s_old.remove(key@));
            } else {
                assert(s_old.remove(key@) =~= s_old);
            }
            assert(s_old.remove(key@).restrict(kept_old.dom()) =~= kept_old);
        }
        self.seen = Ghost(self.seen@.remove(key@));
        let ghost s = self.seen@;
        let ghost s2 = s.insert(key@, value as nat);
        let ghost kept = self.kept();
        let ghost cap = self.capacity as nat;
        proof {
            self.held.lemma_finite();
            assert(kept.dom() =~= self.held@.dom());
        }
        let n = self.held.len();
        if n < self.capacity {
            proof {
                lemma_subset_equality(kept.dom(), s.dom());
            }
            self.held.insert_new(key, value);
            self.seen = Ghost(s2);
            proof {
                assert(self.kept() =~= kept.insert(key@, value as nat));
                assert(self.kept().dom() =~= s2.dom());
                assert(s2.restrict(self.kept().dom()) =~= self.kept());
                assert(self.kept().dom().subset_of(kept.dom().insert(key@)));
            }
        } else if self.capacity == 0 {
            self.seen = Ghost(s2);
            proof {
                assert(self.kept() =~= kept);
                assert(s2.restrict(self.kept().dom()) =~= self.kept());
                assert(self.kept().dom().subset_of(kept.dom().insert(key@)));
            }
        } else {
            let (low_key, low_value) = self.lowest();
            let ghost lk = low_key@;
            let above = value > low_value || (value == low_value && precedes(
                key.as_str(),
                low_key.as_str(),
            ));
            proof {
                assert(s.contains_key(lk));
                assert(s[lk] == low_value);
            }
            if above {
                // the lowest-ranked pair makes room for the new one
                let _ = self.held.take(low_key.as_str());
                self.held.insert_new(key, value);
                self.seen = Ghost(s2);
                proof {
                    let k2 = self.kept();
                    assert(k2 =~= kept.remove(lk).insert(key@, value as nat));
                    assert(k2.dom() =~= kept.dom().remove(lk).insert(key@));
                    assert(k2.dom().subset_of(kept.dom().insert(key@)));
                    assert(s2.restrict(k2.dom()) =~= k2);
                    assert(outranks(s2, key@, lk));
                    assert forall|a: Seq<char>, b: Seq<char>|
                        #![trigger k2.dom().contains(a), k2.dom().contains(b)]
                        k2.dom().contains(a) && s2.contains_key(b) && !k2.dom().contains(
                            b,
                        ) implies outranks(s2, a, b) by {
                        if b != lk {
                            assert(outranks(s, lk, b));
                        }
                        if a == key@ {
                            lemma_outranks_order(s2, a, lk, b);
                        } else {
                            assert(outranks(s, a, lk));
                        }
                    }
                }
            } else {
                self.seen = Ghost(s2);
                proof {
                    let k2 = self.kept();
                    assert(k2 =~= kept);
                    assert(k2.dom().subset_of(kept.dom().insert(key@)));
                    assert(s2.restrict(k2.dom()) =~= k2);
                    lemma_outranks_order(s2, key@, lk, key@);
                    assert(outranks(s2, lk, key@));
                    assert forall|a: Seq<char>, b: Seq<char>|
                        #![trigger k2.dom().contains(a), k2.dom().contains(b)]
                        k2.dom().contains(a) && s2.contains_key(b) && !k2.dom().contains(
                            b,
                        ) implies outranks(s2, a, b) by {
                        if b == key@ && a != lk {
                            assert(outranks(s, a, lk));
                            lemma_outranks_order(s2, a, lk, b);
                        }
                    }
                }
            }
        }
        proof {
            let t = kept_old.dom().insert(key@);
            let s2 = s_old.insert(key@, value as nat);
            assert(self.seen@ =~= s2);
            assert(t.subset_of(s2.dom()));
            self.held.lemma_finite();
            lemma_top_within(self.kept().dom(), s2, t, self.capacity as nat);
            assert(s2.restrict(t) =~= kept_old.insert(key@, value as nat));
            assert(self.kept() =~= kept_old.insert(key@, value as nat).restrict(self.kept().dom()));
        }
    }

    /// Consumes the selector, handing back the pairs it holds.
    pub fn drain(self) -> (r: KeyTable<usize>)
        requires
            self.wf(),
        ensures
            r.wf(),
            counts_view(r@) == self.kept(),
            keeps_top(self.kept(), self.seen(), self.seen(), self.capacity()),
    {
        self.held
    }

    /// Pushes every pair that `other` holds into this selector; the names held by the
    /// two must differ. The pairs held afterwards are the top `capacity` of those the
    /// two held together.
    pub fn merge(&mut self, other: Self)
        requires
            old(self).wf(),
            other.wf(),
            forall|k: Seq<char>| #[trigger]
                other.kept().contains_key(k) ==> !old(self).kept().contains_key(k),
        ensures
            final(self).wf(),
            final(self).capacity() == old(self).capacity(),
            final(self).seen() == old(self).seen().union_prefer_right(other.kept()),
            keeps_top(final(self).kept(), final(self).seen(), final(self).seen(), final(self).capacity()),
            keeps_top(
                final(self).kept(),
                old(self).kept().union_prefer_right(other.kept()),
                old(self).kept().union_prefer_right(other.kept()),
                final(self).capacity(),
            ),
    {
        let ghost s0 = self.seen@;
        let ghost mine = self.kept();
        let ghost theirs = other.kept();
        let mut rest = other.drain();
        proof {
            assert(counts_view(rest@) == theirs);
            assert(counts_view(rest@).dom() =~= rest@.dom());
            assert(theirs.remove_keys(rest@.dom()) =~= Map::empty());
            assert(s0.union_prefer_right(Map::empty()) =~= s0);
            assert(theirs.restrict(rest@.dom()) =~= theirs);
        }
        loop
            invariant
                self.wf(),
                rest.wf(),
                self.capacity() == old(self).capacity(),
                counts_view(rest@) == theirs.restrict(rest@.dom()),
                self.seen@ == s0.union_prefer_right(theirs.remove_keys(rest@.dom())),
                forall|k: Seq<char>| #[trigger] rest@.contains_key(k) ==> !self.kept().contains_key(k),
                self.kept().dom().subset_of(mine.dom().union(theirs.dom())),
            ensures
                self.wf(),
                self.capacity() == old(self).capacity(),
                self.seen@ == s0.union_prefer_right(theirs),
                self.kept().dom().subset_of(mine.dom().union(theirs.dom())),
            decreases rest@.len(),
        {
            let ghost r = rest@;
            let ghost before = self.kept();
            match rest.pop() {
                None => {
                    proof {
                        assert(theirs.remove_keys(r.dom()) =~= theirs);
                    }
                    break;
                },
                Some((key, value)) => {
                    proof {
                        let k = key@;
                        assert(counts_view(r).contains_key(k));
                        assert(counts_view(r)[k] == value as nat);
                        assert(theirs.restrict(r.dom())[k] == theirs[k]);
                        assert(theirs.contains_key(k));
                        assert(theirs[k] == value as nat);
                    }
                    self.push(key, value);
                    proof {
                        let k = key@;
                        assert(self.kept().dom().subset_of(before.dom().insert(k)));
                        assert forall|q: Seq<char>| #[trigger] rest@.contains_key(q) implies theirs.contains_key(q) && counts_view(
                            rest@,
                        )[q] == theirs[q] && !self.kept().contains_key(q) by {
                            assert(r.contains_key(q));
                            assert(counts_view(r).contains_key(q));
                            assert(theirs.restrict(r.dom()).contains_key(q));
                            assert(counts_view(r)[q] == theirs.restrict(r.dom())[q]);
                            assert(q != k);
                            assert(!before.contains_key(q));
                        }
                        assert(counts_view(rest@) =~= theirs.restrict(rest@.dom()));
                        assert(self.seen@ =~= s0.union_prefer_right(
                            theirs.remove_keys(rest@.dom()),
                        ));
                    }
                },
            }
        }
        proof {
            // the pairs held now are the top of all pairs seen, and they lie within
            // the names held by the two selectors before
            let seen = self.seen@;
            let t = mine.dom().union(theirs.dom());
            let both = mine.union_prefer_right(theirs);
            assert(mine.dom().subset_of(s0.dom()));
            assert(t.subset_of(seen.dom()));
            lemma_top_within(self.kept().dom(), seen, t, self.capacity as nat);
            assert forall|q: Seq<char>| #[trigger] mine.contains_key(q) implies mine[q] == s0[q] by {
                assert(s0.restrict(mine.dom()).contains_key(q));
            }
            assert(seen.restrict(t) =~= both);
            assert(self.kept() =~= both.restrict(self.kept().dom())) by {
                assert forall|q: Seq<char>| #[trigger] self.kept().contains_key(q) implies self.kept()[q]
                    == both[q] by {
                    assert(seen.restrict(self.kept().dom()).contains_key(q));
                    assert(seen.restrict(t).contains_key(q));
                }
            }
        }
    }
}

} // verus!
