//! Running statistics of one weapon.
use vstd::prelude::*;

use crate::table::Scored;

verus! {

/// What a weapon's statistics stand for.
pub struct WeaponTally {
    pub death_count: nat,
    pub death_count_with_distance: nat,
    pub total_distance: nat,
}

/// The statistics of a weapon that has killed no one.
pub open spec fn weapon_zero() -> WeaponTally {
    WeaponTally { death_count: 0, death_count_with_distance: 0, total_distance: 0 }
}

/// One more kill, with its distance when it is known.
pub open spec fn weapon_absorb(w: WeaponTally, distance: Option<nat>) -> WeaponTally {
    match distance {
        Some(d) => WeaponTally {
            death_count: w.death_count + 1,
            death_count_with_distance: w.death_count_with_distance + 1,
            total_distance: w.total_distance + d,
        },
        None => WeaponTally { death_count: w.death_count + 1, ..w },
    }
}

/// The statistics of two disjoint sets of kills, together.
pub open spec fn weapon_combine(a: WeaponTally, b: WeaponTally) -> WeaponTally {
    WeaponTally {
        death_count: a.death_count + b.death_count,
        death_count_with_distance: a.death_count_with_distance + b.death_count_with_distance,
        total_distance: a.total_distance + b.total_distance,
    }
}

/// A distance as a mathematical value.
pub open spec fn distance_value(d: Option<u64>) -> Option<nat> {
    match d {
        Some(x) => Some(x as nat),
        None => None,
    }
}

/// Merging weapon statistics does not depend on the order of the operands.
pub proof fn lemma_weapon_combine_commutative(a: WeaponTally, b: WeaponTally)
    ensures
        weapon_combine(a, b) == weapon_combine(b, a),
{
}

/// Merging weapon statistics does not depend on how merges are grouped.
pub proof fn lemma_weapon_combine_associative(a: WeaponTally, b: WeaponTally, c: WeaponTally)
    ensures
        weapon_combine(weapon_combine(a, b), c) == weapon_combine(a, weapon_combine(b, c)),
{
}

/// Absorbing a kill is merging the statistics of that kill alone.
pub proof fn lemma_weapon_absorb_is_combine(w: WeaponTally, distance: Option<nat>)
    ensures
        weapon_absorb(w, distance) == weapon_combine(w, weapon_absorb(weapon_zero(), distance)),
{
}

/// Struct to store the stats of a weapon.
pub struct WeaponStats {
    death_count: usize,
    death_count_with_distance: usize,
    total_distance: u128,
}

impl View for WeaponStats {
    type V = WeaponTally;

    closed spec fn view(&self) -> WeaponTally {
        WeaponTally {
            death_count: self.death_count as nat,
            death_count_with_distance: self.death_count_with_distance as nat,
            total_distance: self.total_distance as nat,
        }
    }
}

/// The bound of the sum of distances that keeps the sum in range.
pub open spec fn weapon_tally_bounded(w: WeaponTally) -> bool {
    &&& w.death_count_with_distance <= w.death_count
    &&& w.total_distance <= w.death_count_with_distance * (u64::MAX as nat)
}

impl Scored for WeaponStats {
    open spec fn inv(&self) -> bool {
        weapon_tally_bounded(self@)
    }

    open spec fn score_of(v: WeaponTally) -> nat {
        v.death_count
    }

    fn score(&self) -> (r: usize) {
        self.death_count
    }
}

proof fn lemma_distance_sum_fits(c: nat, total: nat, d: nat)
    requires
        c < usize::MAX,
        total <= c * (u64::MAX as nat),
        d <= u64::MAX,
    ensures
        total + d <= (c + 1) * (u64::MAX as nat),
        total + d <= u128::MAX,
{
    assert((c + 1) * (u64::MAX as nat) == c * (u64::MAX as nat) + u64::MAX) by (nonlinear_arith);
    assert((c + 1) * (u64::MAX as nat) <= (usize::MAX as nat) * (u64::MAX as nat))
        by (nonlinear_arith)
        requires
            c + 1 <= usize::MAX,
    ;
    assert((usize::MAX as nat) * (u64::MAX as nat) <= u128::MAX) by (nonlinear_arith)
        requires
            usize::MAX <= u64::MAX,
    ;
}

proof fn lemma_distance_sums_fit(c1: nat, t1: nat, c2: nat, t2: nat)
    requires
        c1 + c2 <= usize::MAX,
        t1 <= c1 * (u64::MAX as nat),
        t2 <= c2 * (u64::MAX as nat),
    ensures
        t1 + t2 <= (c1 + c2) * (u64::MAX as nat),
        t1 + t2 <= u128::MAX,
{
    assert((c1 + c2) * (u64::MAX as nat) == c1 * (u64::MAX as nat) + c2 * (u64::MAX as nat))
        by (nonlinear_arith);
    assert((c1 + c2) * (u64::MAX as nat) <= (usize::MAX as nat) * (u64::MAX as nat))
        by (nonlinear_arith)
        requires
            c1 + c2 <= usize::MAX,
    ;
    assert((usize::MAX as nat) * (u64::MAX as nat) <= u128::MAX) by (nonlinear_arith)
        requires
            usize::MAX <= u64::MAX,
    ;
}

impl WeaponStats {
    /// Creates a new `WeaponStats` instance.
    pub fn new() -> (r: Self)
        ensures
            r@ == weapon_zero(),
            r.inv(),
    {
        WeaponStats { death_count: 0, death_count_with_distance: 0, total_distance: 0 }
    }

    /// Adds a death to the weapon stats.
    /// If the distance is provided, it also counts the death among those with a distance
    /// and adds the distance to the total.
    pub fn add_death(&mut self, distance: Option<u64>)
        requires
            old(self).inv(),
            old(self)@.death_count < usize::MAX,
        ensures
            final(self).inv(),
            final(self)@ == weapon_absorb(old(self)@, distance_value(distance)),
    {
        self.death_count = self.death_count + 1;
        if let Some(d) = distance {
            proof {
                lemma_distance_sum_fits(
                    self.death_count_with_distance as nat,
                    self.total_distance as nat,
                    d as nat,
                );
            }
            self.death_count_with_distance = self.death_count_with_distance + 1;
            self.total_distance = self.total_distance + d as u128;
        }
    }

    /// Merges the stats of another `WeaponStats` instance into this one.
    pub fn merge(&mut self, other: &Self)
        requires
            old(self).inv(),
            other.inv(),
            old(self)@.death_count + other@.death_count <= usize::MAX,
        ensures
            final(self).inv(),
            final(self)@ == weapon_combine(old(self)@, other@),
    {
        proof {
            lemma_distance_sums_fit(
                self.death_count_with_distance as nat,
                self.total_distance as nat,
                other.death_count_with_distance as nat,
                other.total_distance as nat,
            );
        }
        self.death_count = self.death_count + other.death_count;
        self.death_count_with_distance = self.death_count_with_distance
            + other.death_count_with_distance;
        self.total_distance = self.total_distance + other.total_distance;
    }

    /// The number of kills made with the weapon.
    pub fn death_count(&self) -> (r: usize)
        ensures
            r == self@.death_count,
    {
        self.death_count
    }

    /// The number of kills whose distance is known.
    pub fn death_count_with_distance(&self) -> (r: usize)
        ensures
            r == self@.death_count_with_distance,
    {
        self.death_count_with_distance
    }

    /// The sum of the known kill distances.
    pub fn total_distance(&self) -> (r: u128)
        ensures
            r == self@.total_distance,
    {
        self.total_distance
    }
}

} // verus!
