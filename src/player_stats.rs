//! Running statistics of one player: kills, and kills by weapon.
use vstd::prelude::*;
use vstd::set_lib::lemma_len_subset;
use vstd::set::fold::{is_fun_commutative, lemma_finite_set_induct, lemma_fold_empty, lemma_fold_insert};

use crate::selector::keeps_top;
use crate::sorting::{retain_top_elements, scores_of};
use crate::table::{KeyTable, Scored, counts_view};

verus! {

/// What a player's statistics stand for.
pub struct PlayerTally {
    pub deaths_count: nat,
    pub weapons: Map<Seq<char>, nat>,
}

/// The count held under `k`, zero when there is none.
pub open spec fn count_of(m: Map<Seq<char>, nat>, k: Seq<char>) -> nat {
    if m.contains_key(k) {
        m[k]
    } else {
        0
    }
}

/// Two histograms added name by name.
pub open spec fn counts_combine(a: Map<Seq<char>, nat>, b: Map<Seq<char>, nat>) -> Map<
    Seq<char>,
    nat,
> {
    a.dom().union(b.dom()).mk_map(|k: Seq<char>| count_of(a, k) + count_of(b, k))
}

/// A histogram with `c` more under `k`.
pub open spec fn counts_add(m: Map<Seq<char>, nat>, k: Seq<char>, c: nat) -> Map<Seq<char>, nat> {
    m.insert(k, count_of(m, k) + c)
}

/// The statistics of a player who has killed no one.
pub open spec fn player_zero() -> PlayerTally {
    PlayerTally { deaths_count: 0, weapons: Map::empty() }
}

/// One more kill, by the given weapon when it is known.
pub open spec fn player_absorb(p: PlayerTally, weapon: Option<Seq<char>>) -> PlayerTally {
    PlayerTally {
        deaths_count: p.deaths_count + 1,
        weapons: match weapon {
            Some(w) => counts_add(p.weapons, w, 1),
            None => p.weapons,
        },
    }
}

/// The statistics of two disjoint sets of kills, together.
pub open spec fn player_combine(a: PlayerTally, b: PlayerTally) -> PlayerTally {
    PlayerTally {
        deaths_count: a.deaths_count + b.deaths_count,
        weapons: counts_combine(a.weapons, b.weapons),
    }
}

/// The kills by weapon add up to at most the player's kills (fewer when some kills
/// have no known weapon), so no weapon has more kills than the player.
pub open spec fn player_tally_bounded(p: PlayerTally) -> bool {
    &&& p.weapons.dom().finite()
    &&& counts_total(p.weapons) <= p.deaths_count
    &&& forall|k: Seq<char>| #[trigger] p.weapons.contains_key(k) ==> p.weapons[k] <= p.deaths_count
}

/// A name as a mathematical value.
pub open spec fn name_value(s: Option<String>) -> Option<Seq<char>> {
    match s {
        Some(x) => Some(x@),
        None => None,
    }
}

pub proof fn lemma_counts_combine_commutative(a: Map<Seq<char>, nat>, b: Map<Seq<char>, nat>)
    ensures
        counts_combine(a, b) == counts_combine(b, a),
{
    assert(counts_combine(a, b) =~= counts_combine(b, a));
}

pub proof fn lemma_counts_combine_associative(
    a: Map<Seq<char>, nat>,
    b: Map<Seq<char>, nat>,
    c: Map<Seq<char>, nat>,
)
    ensures
        counts_combine(counts_combine(a, b), c) == counts_combine(a, counts_combine(b, c)),
{
    assert(counts_combine(counts_combine(a, b), c) =~= counts_combine(a, counts_combine(b, c)));
}

pub proof fn lemma_counts_combine_empty(a: Map<Seq<char>, nat>)
    ensures
        counts_combine(a, Map::empty()) == a,
{
    assert(counts_combine(a, Map::empty()) =~= a);
}

/// Moving one name's count from one histogram to the other keeps their sum.
proof fn lemma_counts_move(a: Map<Seq<char>, nat>, b: Map<Seq<char>, nat>, k: Seq<char>)
    requires
        b.contains_key(k),
    ensures
        counts_combine(counts_add(a, k, b[k]), b.remove(k)) == counts_combine(a, b),
{
    assert(counts_combine(counts_add(a, k, b[k]), b.remove(k)) =~= counts_combine(a, b));
}

/// The step that adds one name's count to a running sum.
pub open spec fn add_count(m: Map<Seq<char>, nat>) -> spec_fn(nat, Seq<char>) -> nat {
    |acc: nat, k: Seq<char>| acc + m[k]
}

/// The sum of all counts of a histogram.
pub open spec fn counts_total(m: Map<Seq<char>, nat>) -> nat {
    m.dom().fold(0nat, add_count(m))
}

proof fn lemma_add_count_commutative(m: Map<Seq<char>, nat>)
    ensures
        is_fun_commutative(add_count(m)),
{
    assert forall|a1: Seq<char>, a2: Seq<char>, b: nat|
        #[trigger] add_count(m)(add_count(m)(b, a2), a1) == add_count(m)(add_count(m)(b, a1), a2) by {
    }
}

/// Sums over the same names agree when the counts of those names agree.
proof fn lemma_fold_agree(s: Set<Seq<char>>, m1: Map<Seq<char>, nat>, m2: Map<Seq<char>, nat>)
    requires
        s.finite(),
        forall|k: Seq<char>| #[trigger] s.contains(k) ==> m1[k] == m2[k],
    ensures
        s.fold(0nat, add_count(m1)) == s.fold(0nat, add_count(m2)),
{
    lemma_add_count_commutative(m1);
    lemma_add_count_commutative(m2);
    let pred = |t: Set<Seq<char>>|
        t.subset_of(s) ==> t.fold(0nat, add_count(m1)) == t.fold(0nat, add_count(m2));
    lemma_fold_empty(0nat, add_count(m1));
    lemma_fold_empty(0nat, add_count(m2));
    assert forall|t: Set<Seq<char>>, a: Seq<char>|
        pred(t) && t.finite() && !t.contains(a) implies #[trigger] pred(t.insert(a)) by {
        if t.insert(a).subset_of(s) {
            assert(t.subset_of(s));
            assert(s.contains(a));
            lemma_fold_insert(t, 0nat, add_count(m1), a);
            lemma_fold_insert(t, 0nat, add_count(m2), a);
        }
    }
    lemma_finite_set_induct(s, pred);
}

/// Adding a name that was absent adds its count to the sum.
proof fn lemma_total_insert(m: Map<Seq<char>, nat>, k: Seq<char>, v: nat)
    requires
        m.dom().finite(),
        !m.contains_key(k),
    ensures
        counts_total(m.insert(k, v)) == counts_total(m) + v,
{
    let m2 = m.insert(k, v);
    lemma_add_count_commutative(m2);
    assert(m2.dom() =~= m.dom().insert(k));
    lemma_fold_insert(m.dom(), 0nat, add_count(m2), k);
    lemma_fold_agree(m.dom(), m2, m);
}

/// A name's count is the sum less the sum without it.
proof fn lemma_total_remove(m: Map<Seq<char>, nat>, k: Seq<char>)
    requires
        m.dom().finite(),
        m.contains_key(k),
    ensures
        counts_total(m) == counts_total(m.remove(k)) + m[k],
{
    assert(m =~= m.remove(k).insert(k, m[k]));
    lemma_total_insert(m.remove(k), k, m[k]);
}

/// Adding `c` under one name adds `c` to the sum.
proof fn lemma_total_add(m: Map<Seq<char>, nat>, k: Seq<char>, c: nat)
    requires
        m.dom().finite(),
    ensures
        counts_total(counts_add(m, k, c)) == counts_total(m) + c,
{
    if m.contains_key(k) {
        lemma_total_remove(m, k);
        assert(counts_add(m, k, c).remove(k) =~= m.remove(k));
        lemma_total_remove(counts_add(m, k, c), k);
    } else {
        lemma_total_insert(m, k, c);
    }
}

/// The sum of two histograms added name by name is the sum of their sums.
proof fn lemma_total_combine(a: Map<Seq<char>, nat>, b: Map<Seq<char>, nat>)
    requires
        a.dom().finite(),
        b.dom().finite(),
    ensures
        counts_total(counts_combine(a, b)) == counts_total(a) + counts_total(b),
    decreases b.dom().len(),
{
    if b.dom().len() == 0 {
        b.dom().lemma_len0_is_empty();
        assert(b =~= Map::empty());
        lemma_counts_combine_empty(a);
        lemma_fold_empty(0nat, add_count(b));
    } else {
        let k = b.dom().choose();
        assert(b.contains_key(k));
        lemma_counts_move(a, b, k);
        lemma_total_combine(counts_add(a, k, b[k]), b.remove(k));
        lemma_total_add(a, k, b[k]);
        lemma_total_remove(b, k);
    }
}

/// Keeping some of the names does not raise the sum.
proof fn lemma_total_restrict(m: Map<Seq<char>, nat>, s: Set<Seq<char>>)
    requires
        m.dom().finite(),
    ensures
        counts_total(m.restrict(s)) <= counts_total(m),
    decreases m.dom().len(),
{
    if m.dom().len() == 0 {
        m.dom().lemma_len0_is_empty();
        assert(m.restrict(s) =~= m);
    } else {
        let k = m.dom().choose();
        assert(m.contains_key(k));
        lemma_total_remove(m, k);
        lemma_total_restrict(m.remove(k), s);
        if s.contains(k) {
            assert(m.restrict(s) =~= m.remove(k).restrict(s).insert(k, m[k]));
            lemma_len_subset(m.remove(k).restrict(s).dom(), m.dom());
            lemma_total_insert(m.remove(k).restrict(s), k, m[k]);
        } else {
            assert(m.restrict(s) =~= m.remove(k).restrict(s));
        }
    }
}

/// Merging player statistics does not depend on the order of the operands.
pub proof fn lemma_player_combine_commutative(a: PlayerTally, b: PlayerTally)
    ensures
        player_combine(a, b) == player_combine(b, a),
{
    lemma_counts_combine_commutative(a.weapons, b.weapons);
}

/// Merging player statistics does not depend on how merges are grouped.
pub proof fn lemma_player_combine_associative(a: PlayerTally, b: PlayerTally, c: PlayerTally)
    ensures
        player_combine(player_combine(a, b), c) == player_combine(a, player_combine(b, c)),
{
    lemma_counts_combine_associative(a.weapons, b.weapons, c.weapons);
}

/// Absorbing a kill is merging the statistics of that kill alone.
pub proof fn lemma_player_absorb_is_combine(p: PlayerTally, weapon: Option<Seq<char>>)
    ensures
        player_absorb(p, weapon) == player_combine(p, player_absorb(player_zero(), weapon)),
{
    let one = player_absorb(player_zero(), weapon);
    match weapon {
        Some(w) => {
            assert(counts_add(p.weapons, w, 1) =~= counts_combine(p.weapons, one.weapons));
        },
        None => {
            assert(one.weapons =~= Map::empty());
            lemma_counts_combine_empty(p.weapons);
        },
    }
}

/// Merging with a player who has killed no one changes nothing.
pub proof fn lemma_player_combine_zero(p: PlayerTally)
    ensures
        player_combine(p, player_zero()) == p,
{
    lemma_counts_combine_empty(p.weapons);
}

proof fn lemma_counts_view_put(m: Map<Seq<char>, usize>, k: Seq<char>, c: usize)
    ensures
        counts_view(m.remove(k).insert(k, c)) == counts_view(m).insert(k, c as nat),
        counts_view(m.insert(k, c)) == counts_view(m).insert(k, c as nat),
        counts_view(m.remove(k)) == counts_view(m).remove(k),
{
    assert(counts_view(m.remove(k).insert(k, c)) =~= counts_view(m).insert(k, c as nat));
    assert(counts_view(m.insert(k, c)) =~= counts_view(m).insert(k, c as nat));
    assert(counts_view(m.remove(k)) =~= counts_view(m).remove(k));
}

/// Struct to store the stats of a player.
pub struct PlayerStats {
    deaths_count: usize,
    weapons: KeyTable<usize>,
}

impl View for PlayerStats {
    type V = PlayerTally;

    closed spec fn view(&self) -> PlayerTally {
        PlayerTally { deaths_count: self.deaths_count as nat, weapons: counts_view(self.weapons@) }
    }
}

impl Scored for PlayerStats {
    closed spec fn inv(&self) -> bool {
        &&& self.weapons.wf()
        &&& player_tally_bounded(self@)
    }

    open spec fn score_of(v: PlayerTally) -> nat {
        v.deaths_count
    }

    fn score(&self) -> (r: usize) {
        self.deaths_count
    }
}

impl PlayerStats {
    /// Creates a new `PlayerStats` instance.
    pub fn new() -> (r: Self)
        ensures
            r@ == player_zero(),
            r.inv(),
    {
        let r = PlayerStats { deaths_count: 0, weapons: KeyTable::new() };
        assert(r@.weapons =~= Map::empty());
        proof {
            lemma_fold_empty(0nat, add_count(r@.weapons));
        }
        r
    }

    /// Adds `c` kills by weapon `k` to the histogram.
    fn add_weapon_kills(&mut self, k: String, c: usize)
        requires
            old(self).weapons.wf(),
            count_of(old(self)@.weapons, k@) + c <= usize::MAX,
        ensures
            final(self).weapons.wf(),
            final(self).deaths_count == old(self).deaths_count,
            final(self)@.weapons == counts_add(old(self)@.weapons, k@, c as nat),
    {
        let ghost m = self.weapons@;
        match self.weapons.take(k.as_str()) {
            Some((key, n)) => {
                self.weapons.insert_new(key, n + c);
                proof {
                    lemma_counts_view_put(m, k@, (n + c) as usize);
                }
            },
            None => {
                self.weapons.insert_new(k, c);
                proof {
                    lemma_counts_view_put(m, k@, c);
                }
            },
        }
    }

    /// Increments the death count of the player.
    /// If the weapon is provided, it also increments the death count of that weapon.
    pub fn add_death(&mut self, weapon: Option<String>)
        requires
            old(self).inv(),
            old(self)@.deaths_count < usize::MAX,
        ensures
            final(self).inv(),
            final(self)@ == player_absorb(old(self)@, name_value(weapon)),
    {
        let ghost before = self@.weapons;
        self.deaths_count = self.deaths_count + 1;
        if let Some(w) = weapon {
            proof {
                lemma_total_add(before, w@, 1);
            }
            self.add_weapon_kills(w, 1);
        }
    }

    /// Merges the stats of another `PlayerStats` instance into this one.
    pub fn merge(&mut self, other: Self)
        requires
            old(self).inv(),
            other.inv(),
            old(self)@.deaths_count + other@.deaths_count <= usize::MAX,
        ensures
            final(self).inv(),
            final(self)@ == player_combine(old(self)@, other@),
    {
        let ghost a = self@;
        let ghost b = other@;
        self.deaths_count = self.deaths_count + other.deaths_count;
        let mut rest = other.weapons;
        loop
            invariant
                self.weapons.wf(),
                rest.wf(),
                self.deaths_count == a.deaths_count + b.deaths_count,
                player_tally_bounded(a),
                player_tally_bounded(b),
                counts_combine(self@.weapons, counts_view(rest@)) == counts_combine(
                    a.weapons,
                    b.weapons,
                ),
                forall|k: Seq<char>| #[trigger]
                    self@.weapons.contains_key(k) ==> self@.weapons[k] <= self.deaths_count,
            ensures
                self.weapons.wf(),
                self.deaths_count == a.deaths_count + b.deaths_count,
                self@.weapons == counts_combine(a.weapons, b.weapons),
                player_tally_bounded(self@),
            decreases rest@.len(),
        {
            let ghost s = self@.weapons;
            let ghost r = counts_view(rest@);
            match rest.pop() {
                None => {
                    proof {
                        assert(r =~= Map::empty());
                        lemma_counts_combine_empty(s);
                        self.weapons.lemma_finite();
                        lemma_total_combine(a.weapons, b.weapons);
                    }
                    break;
                },
                Some((k, c)) => {
                    proof {
                        assert(count_of(counts_combine(s, r), k@) == count_of(s, k@) + c);
                        assert(count_of(counts_combine(a.weapons, b.weapons), k@) <= a.deaths_count
                            + b.deaths_count);
                        lemma_counts_move(s, r, k@);
                        lemma_counts_view_put(rest@, k@, c);
                    }
                    self.add_weapon_kills(k, c);
                },
            }
        }
    }

    /// Keeps only the top `weapon_count` weapons of the player, by kills.
    pub fn filter_top_weapons(&mut self, weapon_count: usize)
        requires
            old(self).inv(),
        ensures
            final(self).inv(),
            final(self)@.deaths_count == old(self)@.deaths_count,
            keeps_top(final(self)@.weapons, old(self)@.weapons, old(self)@.weapons, weapon_count as nat),
    {
        let ghost w = self.weapons@;
        retain_top_elements(&mut self.weapons, weapon_count);
        proof {
            let w2 = self.weapons@;
            assert(scores_of::<usize>(w) =~= counts_view(w));
            assert(counts_view(w2).dom() =~= w2.dom());
            assert(counts_view(w2) =~= counts_view(w).restrict(counts_view(w2).dom()));
            lemma_total_restrict(counts_view(w), counts_view(w2).dom());
        }
    }

    /// The number of kills of the player.
    pub fn deaths_count(&self) -> (r: usize)
        ensures
            r == self@.deaths_count,
    {
        self.deaths_count
    }

    /// The player's kills by weapon.
    pub fn weapons(&self) -> (r: &KeyTable<usize>)
        requires
            self.inv(),
        ensures
            r.wf(),
            counts_view(r@) == self@.weapons,
    {
        &self.weapons
    }
}

} // verus!
