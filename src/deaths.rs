//! One death record, as the aggregation reads it.
//!
//! Positions are integers in a fixed-point unit chosen by whoever builds the
//! record; a kill distance is the Euclidean distance in that unit, rounded down.
use vstd::prelude::*;

use crate::player_stats::name_value;
use crate::weapon_stats::distance_value;

verus! {

/// `r` is the square root of `n`, rounded down.
pub open spec fn is_floor_sqrt(r: nat, n: nat) -> bool {
    r * r <= n < (r + 1) * (r + 1)
}

/// The square root of `n`, rounded down.
pub open spec fn floor_sqrt(n: nat) -> nat
    decreases n,
{
    if n == 0 {
        0
    } else {
        let r = floor_sqrt((n - 1) as nat);
        if (r + 1) * (r + 1) <= n {
            r + 1
        } else {
            r
        }
    }
}

pub proof fn lemma_floor_sqrt(n: nat)
    ensures
        is_floor_sqrt(floor_sqrt(n), n),
    decreases n,
{
    if n > 0 {
        lemma_floor_sqrt((n - 1) as nat);
        let r = floor_sqrt((n - 1) as nat);
        assert(floor_sqrt(n) == if (r + 1) * (r + 1) <= n {
            r + 1
        } else {
            r
        });
        if (r + 1) * (r + 1) <= n {
            assert(n == (r + 1) * (r + 1));
            assert((r + 1) * (r + 1) < ((r + 1) + 1) * ((r + 1) + 1)) by (nonlinear_arith);
            assert(is_floor_sqrt(r + 1, n));
        } else {
            assert(r * r <= n);
            assert(is_floor_sqrt(r, n));
        }
    } else {
        assert(floor_sqrt(0) == 0);
        assert(0 * 0 <= 0nat < (0 + 1) * (0 + 1)) by (nonlinear_arith);
    }
}

pub proof fn lemma_floor_sqrt_unique(r: nat, n: nat)
    requires
        is_floor_sqrt(r, n),
    ensures
        r == floor_sqrt(n),
{
    lemma_floor_sqrt(n);
    let s = floor_sqrt(n);
    if r < s {
        assert((r + 1) * (r + 1) <= s * s) by (nonlinear_arith)
            requires
                r + 1 <= s,
        ;
    } else if s < r {
        assert((s + 1) * (s + 1) <= r * r) by (nonlinear_arith)
            requires
                s + 1 <= r,
        ;
    }
}

/// What a death record stands for: the weapon, the killer, and the kill distance
/// when all four coordinates are known.
pub struct DeathRecord {
    pub weapon: Option<Seq<char>>,
    pub killer: Option<Seq<char>>,
    pub distance: Option<nat>,
}

/// The kill distance for the four coordinates, when all of them are known.
pub open spec fn distance_of(
    kx: Option<i32>,
    ky: Option<i32>,
    vx: Option<i32>,
    vy: Option<i32>,
) -> Option<nat> {
    match (kx, ky, vx, vy) {
        (Some(a), Some(b), Some(c), Some(d)) => {
            let dx = a - c;
            let dy = b - d;
            Some(floor_sqrt((dx * dx + dy * dy) as nat))
        },
        _ => None,
    }
}

/// The square root of `n`, rounded down, for `n` below 2 to the 66th.
fn isqrt(n: u128) -> (r: u64)
    requires
        n < 0x4_0000_0000_0000_0000,
    ensures
        r as nat == floor_sqrt(n as nat),
{
    let mut lo: u128 = 0;
    let mut hi: u128 = 0x4_0000_0000;
    assert(hi * hi == 0x10_0000_0000_0000_0000) by (nonlinear_arith)
        requires
            hi == 0x4_0000_0000,
    ;
    while hi - lo > 1
        invariant
            lo < hi <= 0x4_0000_0000,
            lo * lo <= n,
            n < hi * hi,
        decreases hi - lo,
    {
        let mid = lo + (hi - lo) / 2;
        assert(mid * mid <= 0x10_0000_0000_0000_0000) by (nonlinear_arith)
            requires
                mid <= 0x4_0000_0000,
        ;
        if mid * mid <= n {
            lo = mid;
        } else {
            hi = mid;
        }
    }
    proof {
        assert(hi == lo + 1);
        lemma_floor_sqrt_unique(lo as nat, n as nat);
    }
    lo as u64
}

/// A parsed death record.
pub struct Death {
    killed_by: Option<String>,
    killer_name: Option<String>,
    killer_position_x: Option<i32>,
    killer_position_y: Option<i32>,
    victim_position_x: Option<i32>,
    victim_position_y: Option<i32>,
}

impl View for Death {
    type V = DeathRecord;

    closed spec fn view(&self) -> DeathRecord {
        DeathRecord {
            weapon: name_value(self.killed_by),
            killer: name_value(self.killer_name),
            distance: distance_of(
                self.killer_position_x,
                self.killer_position_y,
                self.victim_position_x,
                self.victim_position_y,
            ),
        }
    }
}

impl Death {
    /// A record of a kill by `killer_name` with weapon `killed_by`, between the given positions.
    pub fn new(
        killed_by: Option<String>,
        killer_name: Option<String>,
        killer_position_x: Option<i32>,
        killer_position_y: Option<i32>,
        victim_position_x: Option<i32>,
        victim_position_y: Option<i32>,
    ) -> (r: Self)
        ensures
            r@.weapon == name_value(killed_by),
            r@.killer == name_value(killer_name),
            r@.distance == distance_of(
                killer_position_x,
                killer_position_y,
                victim_position_x,
                victim_position_y,
            ),
    {
        Death {
            killed_by,
            killer_name,
            killer_position_x,
            killer_position_y,
            victim_position_x,
            victim_position_y,
        }
    }

    /// The weapon of the kill, when it is known.
    pub fn killed_by(&self) -> (r: &Option<String>)
        ensures
            name_value(*r) == self@.weapon,
    {
        &self.killed_by
    }

    /// The killer, when known.
    pub fn killer_name(&self) -> (r: &Option<String>)
        ensures
            name_value(*r) == self@.killer,
    {
        &self.killer_name
    }

    /// The kill distance, rounded down; `None` when a coordinate is missing.
    pub fn distance(&self) -> (r: Option<u64>)
        ensures
            distance_value(r) == self@.distance,
    {
        match (
            self.killer_position_x,
            self.killer_position_y,
            self.victim_position_x,
            self.victim_position_y,
        ) {
            (Some(a), Some(b), Some(c), Some(d)) => {
                let dx = a as i64 - c as i64;
                let dy = b as i64 - d as i64;
                assert(dx * dx <= 0xffff_ffff_ffff_ffff) by (nonlinear_arith)
                    requires
                        -0xffff_ffff <= dx <= 0xffff_ffff,
                ;
                assert(dy * dy <= 0xffff_ffff_ffff_ffff) by (nonlinear_arith)
                    requires
                        -0xffff_ffff <= dy <= 0xffff_ffff,
                ;
                assert(0 <= dx * dx) by (nonlinear_arith);
                assert(0 <= dy * dy) by (nonlinear_arith);
                let sx = (dx as i128 * dx as i128) as u128;
                let sy = (dy as i128 * dy as i128) as u128;
                Some(isqrt(sx + sy))
            },
            _ => None,
        }
    }
}

} // verus!
