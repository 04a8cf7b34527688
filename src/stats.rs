//! Aggregation of death records into per-player and per-weapon statistics.
use vstd::prelude::*;

use crate::deaths::{Death, DeathRecord};
use crate::player_stats::{
    PlayerStats, PlayerTally, lemma_player_absorb_is_combine, lemma_player_combine_associative,
    lemma_player_combine_commutative, lemma_player_combine_zero, player_absorb, player_combine,
    player_zero,
};
use crate::selector::{is_top, keeps_top, lemma_top_of_few};
use crate::sorting::{retain_top_elements, scores_of};
use crate::table::KeyTable;
use crate::weapon_stats::{
    WeaponStats, WeaponTally, lemma_weapon_absorb_is_combine, lemma_weapon_combine_associative,
    lemma_weapon_combine_commutative, weapon_absorb, weapon_combine, weapon_zero,
};

verus! {

/// What the statistics of a set of records stand for.
pub struct StatsTally {
    pub total_deaths: nat,
    pub players: Map<Seq<char>, PlayerTally>,
    pub weapons: Map<Seq<char>, WeaponTally>,
}

/// The statistics of no records.
pub open spec fn stats_zero() -> StatsTally {
    StatsTally { total_deaths: 0, players: Map::empty(), weapons: Map::empty() }
}

/// A player's statistics, or those of a player who has killed no one.
pub open spec fn player_or_zero(m: Map<Seq<char>, PlayerTally>, k: Seq<char>) -> PlayerTally {
    if m.contains_key(k) {
        m[k]
    } else {
        player_zero()
    }
}

/// A weapon's statistics, or those of a weapon that has killed no one.
pub open spec fn weapon_or_zero(m: Map<Seq<char>, WeaponTally>, k: Seq<char>) -> WeaponTally {
    if m.contains_key(k) {
        m[k]
    } else {
        weapon_zero()
    }
}

/// The statistics with one more record.
pub open spec fn stats_absorb(s: StatsTally, d: DeathRecord) -> StatsTally {
    StatsTally {
        total_deaths: s.total_deaths + 1,
        players: match d.killer {
            Some(k) => s.players.insert(k, player_absorb(player_or_zero(s.players, k), d.weapon)),
            None => s.players,
        },
        weapons: match d.weapon {
            Some(w) => s.weapons.insert(
                w,
                weapon_absorb(weapon_or_zero(s.weapons, w), d.distance),
            ),
            None => s.weapons,
        },
    }
}

/// The statistics of a sequence of records, absorbed one after the other.
pub open spec fn stats_of(records: Seq<DeathRecord>) -> StatsTally
    decreases records.len(),
{
    if records.len() == 0 {
        stats_zero()
    } else {
        stats_absorb(stats_of(records.drop_last()), records.last())
    }
}

/// Two players' tables merged name by name.
pub open spec fn players_combine(
    a: Map<Seq<char>, PlayerTally>,
    b: Map<Seq<char>, PlayerTally>,
) -> Map<Seq<char>, PlayerTally> {
    a.dom().union(b.dom()).mk_map(
        |k: Seq<char>| player_combine(player_or_zero(a, k), player_or_zero(b, k)),
    )
}

/// Two weapons' tables merged name by name.
pub open spec fn weapons_combine(
    a: Map<Seq<char>, WeaponTally>,
    b: Map<Seq<char>, WeaponTally>,
) -> Map<Seq<char>, WeaponTally> {
    a.dom().union(b.dom()).mk_map(
        |k: Seq<char>| weapon_combine(weapon_or_zero(a, k), weapon_or_zero(b, k)),
    )
}

/// The statistics of two disjoint sets of records, together.
pub open spec fn stats_combine(a: StatsTally, b: StatsTally) -> StatsTally {
    StatsTally {
        total_deaths: a.total_deaths + b.total_deaths,
        players: players_combine(a.players, b.players),
        weapons: weapons_combine(a.weapons, b.weapons),
    }
}

/// The views of a sequence of records.
pub open spec fn records_of(deaths: Seq<Death>) -> Seq<DeathRecord> {
    deaths.map_values(|d: Death| d@)
}

proof fn lemma_player_zero_combine(p: PlayerTally)
    ensures
        player_combine(player_zero(), p) == p,
{
    lemma_player_combine_commutative(player_zero(), p);
    lemma_player_combine_zero(p);
}

proof fn lemma_players_at(a: Map<Seq<char>, PlayerTally>, b: Map<Seq<char>, PlayerTally>, k: Seq<char>)
    ensures
        player_or_zero(players_combine(a, b), k) == player_combine(
            player_or_zero(a, k),
            player_or_zero(b, k),
        ),
{
    if !a.contains_key(k) && !b.contains_key(k) {
        lemma_player_combine_zero(player_zero());
    }
}

proof fn lemma_weapons_at(a: Map<Seq<char>, WeaponTally>, b: Map<Seq<char>, WeaponTally>, k: Seq<char>)
    ensures
        weapon_or_zero(weapons_combine(a, b), k) == weapon_combine(
            weapon_or_zero(a, k),
            weapon_or_zero(b, k),
        ),
{
}

/// Merging statistics does not depend on the order of the operands.
pub proof fn lemma_stats_combine_commutative(a: StatsTally, b: StatsTally)
    ensures
        stats_combine(a, b) == stats_combine(b, a),
{
    assert forall|k: Seq<char>| #[trigger]
        players_combine(a.players, b.players).contains_key(k) implies players_combine(
        a.players,
        b.players,
    )[k] == players_combine(b.players, a.players)[k] by {
        lemma_player_combine_commutative(player_or_zero(a.players, k), player_or_zero(b.players, k));
    }
    assert forall|k: Seq<char>| #[trigger]
        weapons_combine(a.weapons, b.weapons).contains_key(k) implies weapons_combine(
        a.weapons,
        b.weapons,
    )[k] == weapons_combine(b.weapons, a.weapons)[k] by {
        lemma_weapon_combine_commutative(weapon_or_zero(a.weapons, k), weapon_or_zero(b.weapons, k));
    }
    assert(players_combine(a.players, b.players) =~= players_combine(b.players, a.players));
    assert(weapons_combine(a.weapons, b.weapons) =~= weapons_combine(b.weapons, a.weapons));
}

/// Merging statistics does not depend on how merges are grouped.
pub proof fn lemma_stats_combine_associative(a: StatsTally, b: StatsTally, c: StatsTally)
    ensures
        stats_combine(stats_combine(a, b), c) == stats_combine(a, stats_combine(b, c)),
{
    let l = stats_combine(stats_combine(a, b), c);
    let r = stats_combine(a, stats_combine(b, c));
    assert forall|k: Seq<char>| #[trigger] l.players.contains_key(k) implies l.players[k]
        == r.players[k] by {
        lemma_players_at(a.players, b.players, k);
        lemma_players_at(b.players, c.players, k);
        lemma_player_combine_associative(
            player_or_zero(a.players, k),
            player_or_zero(b.players, k),
            player_or_zero(c.players, k),
        );
    }
    assert forall|k: Seq<char>| #[trigger] l.weapons.contains_key(k) implies l.weapons[k]
        == r.weapons[k] by {
        lemma_weapons_at(a.weapons, b.weapons, k);
        lemma_weapons_at(b.weapons, c.weapons, k);
        lemma_weapon_combine_associative(
            weapon_or_zero(a.weapons, k),
            weapon_or_zero(b.weapons, k),
            weapon_or_zero(c.weapons, k),
        );
    }
    assert(l.players =~= r.players);
    assert(l.weapons =~= r.weapons);
}

/// Merging with the statistics of no records changes nothing.
pub proof fn lemma_stats_combine_zero(a: StatsTally)
    ensures
        stats_combine(a, stats_zero()) == a,
{
    assert forall|k: Seq<char>| #[trigger] a.players.contains_key(k) implies players_combine(
        a.players,
        Map::empty(),
    )[k] == a.players[k] by {
        lemma_player_combine_zero(a.players[k]);
    }
    assert(players_combine(a.players, Map::empty()) =~= a.players);
    assert(weapons_combine(a.weapons, Map::empty()) =~= a.weapons);
}

/// Absorbing a record is merging the statistics of that record alone.
pub proof fn lemma_stats_absorb_is_combine(s: StatsTally, d: DeathRecord)
    ensures
        stats_absorb(s, d) == stats_combine(s, stats_absorb(stats_zero(), d)),
{
    let one = stats_absorb(stats_zero(), d);
    let l = stats_absorb(s, d);
    let r = stats_combine(s, one);
    assert forall|k: Seq<char>| #[trigger] r.players.contains_key(k) implies l.players.contains_key(
        k,
    ) && l.players[k] == r.players[k] by {
        if d.killer == Some(k) {
            lemma_player_absorb_is_combine(player_or_zero(s.players, k), d.weapon);
        } else {
            lemma_player_combine_zero(s.players[k]);
        }
    }
    assert forall|k: Seq<char>| #[trigger] r.weapons.contains_key(k) implies l.weapons.contains_key(
        k,
    ) && l.weapons[k] == r.weapons[k] by {
        if d.weapon == Some(k) {
            lemma_weapon_absorb_is_combine(weapon_or_zero(s.weapons, k), d.distance);
        }
    }
    assert(l.players =~= r.players);
    assert(l.weapons =~= r.weapons);
}

/// Aggregating two consecutive groups of records is merging their aggregates.
pub proof fn lemma_stats_of_concat(x: Seq<DeathRecord>, y: Seq<DeathRecord>)
    ensures
        stats_of(x + y) == stats_combine(stats_of(x), stats_of(y)),
    decreases y.len(),
{
    if y.len() == 0 {
        assert(x + y =~= x);
        lemma_stats_combine_zero(stats_of(x));
    } else {
        let d = y.last();
        let one = stats_absorb(stats_zero(), d);
        assert((x + y).drop_last() =~= x + y.drop_last());
        lemma_stats_of_concat(x, y.drop_last());
        lemma_stats_absorb_is_combine(stats_of(x + y.drop_last()), d);
        lemma_stats_absorb_is_combine(stats_of(y.drop_last()), d);
        lemma_stats_combine_associative(stats_of(x), stats_of(y.drop_last()), one);
    }
}

/// Taking any one record out and absorbing it last gives the same statistics.
proof fn lemma_stats_of_remove(y: Seq<DeathRecord>, i: int)
    requires
        0 <= i < y.len(),
    ensures
        stats_of(y) == stats_absorb(stats_of(y.remove(i)), y[i]),
{
    let d = y[i];
    let one = stats_absorb(stats_zero(), d);
    let y1 = y.subrange(0, i);
    let y2 = y.subrange(i + 1, y.len() as int);
    assert(y =~= (y1 + seq![d]) + y2);
    assert(y.remove(i) =~= y1 + y2);
    assert((y1 + seq![d]).drop_last() =~= y1);
    assert(seq![d].drop_last() =~= Seq::<DeathRecord>::empty());
    lemma_stats_of_concat(y1 + seq![d], y2);
    lemma_stats_of_concat(y1, y2);
    lemma_stats_of_concat(y1, seq![d]);
    lemma_stats_absorb_is_combine(stats_zero(), d);
    lemma_stats_combine_commutative(stats_zero(), one);
    lemma_stats_combine_zero(one);
    assert(stats_of(Seq::<DeathRecord>::empty()) == stats_zero());
    assert(seq![d].last() == d);
    assert(stats_of(seq![d]) == stats_absorb(stats_of(seq![d].drop_last()), d));
    assert(stats_of(seq![d]) == one);
    lemma_stats_absorb_is_combine(stats_of(y1 + y2), d);
    let (a, b) = (stats_of(y1), stats_of(y2));
    lemma_stats_combine_associative(a, one, b);
    lemma_stats_combine_commutative(one, b);
    lemma_stats_combine_associative(a, b, one);
}

/// The statistics of records do not depend on their order.
pub proof fn lemma_stats_of_permutation(x: Seq<DeathRecord>, y: Seq<DeathRecord>)
    requires
        x.to_multiset() == y.to_multiset(),
    ensures
        stats_of(x) == stats_of(y),
    decreases x.len(),
{
    broadcast use vstd::seq_lib::to_multiset_len, vstd::seq_lib::to_multiset_contains, vstd::seq_lib::to_multiset_build, vstd::seq_lib::to_multiset_remove, vstd::multiset::group_multiset_axioms;

    if x.len() == 0 {
        vstd::seq_lib::to_multiset_len(x);
        vstd::seq_lib::to_multiset_len(y);
        assert(y.len() == 0);
    } else {
        let d = x.last();
        let rest = x.drop_last();
        assert(x =~= rest.push(d));
        assert(x.to_multiset() =~= rest.to_multiset().insert(d));
        assert(y.to_multiset().count(d) > 0);
        assert(y.contains(d));
        let i = choose|i: int| 0 <= i < y.len() && y[i] == d;
        assert(y.remove(i).to_multiset() == y.to_multiset().remove(d));
        assert(rest.to_multiset() =~= rest.to_multiset().insert(d).remove(d));
        lemma_stats_of_permutation(rest, y.remove(i));
        lemma_stats_of_remove(y, i);
    }
}

/// Aggregating a set of records split into three groups in any way gives the same
/// statistics as merging the three groups' aggregates, however the merges are grouped
/// and ordered.
pub proof fn lemma_aggregate_partition(
    all: Seq<DeathRecord>,
    g1: Seq<DeathRecord>,
    g2: Seq<DeathRecord>,
    g3: Seq<DeathRecord>,
)
    requires
        all.to_multiset() == (g1 + g2 + g3).to_multiset(),
    ensures
        stats_of(all) == stats_combine(stats_combine(stats_of(g1), stats_of(g2)), stats_of(g3)),
        stats_of(all) == stats_combine(stats_of(g1), stats_combine(stats_of(g2), stats_of(g3))),
        stats_of(all) == stats_combine(stats_combine(stats_of(g1), stats_of(g3)), stats_of(g2)),
        stats_of(all) == stats_combine(stats_of(g3), stats_combine(stats_of(g2), stats_of(g1))),
{
    let (a, b, c) = (stats_of(g1), stats_of(g2), stats_of(g3));
    lemma_stats_of_permutation(all, g1 + g2 + g3);
    lemma_stats_of_concat(g1 + g2, g3);
    lemma_stats_of_concat(g1, g2);
    lemma_stats_combine_associative(a, b, c);
    lemma_stats_combine_commutative(b, c);
    lemma_stats_combine_associative(a, c, b);
    lemma_stats_combine_commutative(a, stats_combine(b, c));
    lemma_stats_combine_commutative(c, b);
    lemma_stats_combine_associative(c, b, a);
}

/// Merging statistics does not depend on the order of the operands, for whole
/// statistics, for players and for weapons.
pub proof fn lemma_merge_commutative(
    a: StatsTally,
    b: StatsTally,
    p: PlayerTally,
    q: PlayerTally,
    v: WeaponTally,
    w: WeaponTally,
)
    ensures
        stats_combine(a, b) == stats_combine(b, a),
        player_combine(p, q) == player_combine(q, p),
        weapon_combine(v, w) == weapon_combine(w, v),
{
    lemma_stats_combine_commutative(a, b);
    lemma_player_combine_commutative(p, q);
    lemma_weapon_combine_commutative(v, w);
}

/// The kill counts of the players.
pub open spec fn player_scores(m: Map<Seq<char>, PlayerTally>) -> Map<Seq<char>, nat> {
    m.map_values(|p: PlayerTally| p.deaths_count)
}

/// The kill counts of the weapons.
pub open spec fn weapon_scores(m: Map<Seq<char>, WeaponTally>) -> Map<Seq<char>, nat> {
    m.map_values(|w: WeaponTally| w.death_count)
}

/// `q` is `p` with its weapons cut down to the top `k`.
pub open spec fn player_top_weapons(p: PlayerTally, q: PlayerTally, k: nat) -> bool {
    &&& q.deaths_count == p.deaths_count
    &&& keeps_top(q.weapons, p.weapons, p.weapons, k)
}

/// `r` keeps the top `player_count` players of `a`, each with its top
/// `weapon_count_per_player` weapons; weapons and the record count are untouched.
pub open spec fn top_killers_of(
    a: StatsTally,
    r: StatsTally,
    player_count: nat,
    weapon_count_per_player: nat,
) -> bool {
    &&& r.total_deaths == a.total_deaths
    &&& r.weapons == a.weapons
    &&& is_top(r.players.dom(), player_scores(a.players), player_count)
    &&& forall|k: Seq<char>| #[trigger]
        r.players.contains_key(k) ==> a.players.contains_key(k) && player_top_weapons(
            a.players[k],
            r.players[k],
            weapon_count_per_player,
        )
}

/// `r` keeps the top `weapon_count` weapons of `a`; the rest is untouched.
pub open spec fn top_weapons_of(a: StatsTally, r: StatsTally, weapon_count: nat) -> bool {
    &&& r.total_deaths == a.total_deaths
    &&& r.players == a.players
    &&& keeps_top(r.weapons, a.weapons, weapon_scores(a.weapons), weapon_count)
}

/// `r` is `a` cut down to its top `player_count` players, each with its top
/// `weapon_count_per_player` weapons, and its top `weapon_count` weapons.
pub open spec fn is_filtered(
    a: StatsTally,
    r: StatsTally,
    player_count: nat,
    weapon_count: nat,
    weapon_count_per_player: nat,
) -> bool {
    &&& r.total_deaths == a.total_deaths
    &&& is_top(r.players.dom(), player_scores(a.players), player_count)
    &&& forall|k: Seq<char>| #[trigger]
        r.players.contains_key(k) ==> a.players.contains_key(k) && player_top_weapons(
            a.players[k],
            r.players[k],
            weapon_count_per_player,
        )
    &&& keeps_top(r.weapons, a.weapons, weapon_scores(a.weapons), weapon_count)
}

/// Filtering twice with the same limits gives the same result as filtering once.
pub proof fn lemma_filter_idempotent(
    a: StatsTally,
    r: StatsTally,
    r2: StatsTally,
    player_count: nat,
    weapon_count: nat,
    weapon_count_per_player: nat,
)
    requires
        is_filtered(a, r, player_count, weapon_count, weapon_count_per_player),
        is_filtered(r, r2, player_count, weapon_count, weapon_count_per_player),
    ensures
        r2 == r,
{
    assert(player_scores(r.players).dom() =~= r.players.dom());
    lemma_top_of_few(r2.players.dom(), player_scores(r.players), player_count);
    assert forall|k: Seq<char>| #[trigger] r.players.contains_key(k) implies r2.players[k]
        == r.players[k] by {
        let p = r.players[k];
        let q = r2.players[k];
        assert(a.players.contains_key(k));
        lemma_top_of_few(q.weapons.dom(), p.weapons, weapon_count_per_player);
        assert(q.weapons =~= p.weapons);
    }
    assert(r2.players =~= r.players);
    assert(weapon_scores(r.weapons).dom() =~= r.weapons.dom());
    lemma_top_of_few(r2.weapons.dom(), weapon_scores(r.weapons), weapon_count);
    assert(r2.weapons =~= r.weapons);
}

/// Filtering with all limits at zero keeps no player and no weapon.
pub proof fn lemma_filter_nothing(a: StatsTally, r: StatsTally)
    requires
        is_filtered(a, r, 0, 0, 0),
    ensures
        r.players.len() == 0,
        r.weapons.len() == 0,
        r.total_deaths == a.total_deaths,
{
}

/// No player and no weapon has more kills than there are records.
pub open spec fn stats_tally_bounded(s: StatsTally) -> bool {
    &&& forall|k: Seq<char>| #[trigger]
        s.players.contains_key(k) ==> s.players[k].deaths_count <= s.total_deaths
    &&& forall|k: Seq<char>| #[trigger]
        s.weapons.contains_key(k) ==> s.weapons[k].death_count <= s.total_deaths
}

/// A struct that holds the stats of the game.
pub struct Stats {
    total_deaths: usize,
    players: KeyTable<PlayerStats>,
    weapons: KeyTable<WeaponStats>,
}

impl View for Stats {
    type V = StatsTally;

    closed spec fn view(&self) -> StatsTally {
        StatsTally {
            total_deaths: self.total_deaths as nat,
            players: self.players@,
            weapons: self.weapons@,
        }
    }
}

impl Stats {
    /// The tables are well formed and every count is bounded by the number of records.
    pub closed spec fn wf(&self) -> bool {
        &&& self.players.wf()
        &&& self.weapons.wf()
        &&& stats_tally_bounded(self@)
    }

    /// Creates a new empty `Stats` instance.
    pub fn new() -> (r: Self)
        ensures
            r.wf(),
            r@ == stats_zero(),
    {
        Stats { total_deaths: 0, players: KeyTable::new(), weapons: KeyTable::new() }
    }

    /// Absorbs one record.
    pub fn add_death(&mut self, death: &Death)
        requires
            old(self).wf(),
            old(self)@.total_deaths < usize::MAX,
        ensures
            final(self).wf(),
            final(self)@ == stats_absorb(old(self)@, death@),
    {
        let ghost s = self@;
        self.total_deaths = self.total_deaths + 1;
        let distance = death.distance();
        let weapon: Option<String> = match death.killed_by() {
            Some(w) => Some(w.clone()),
            None => None,
        };
        if let Some(name) = death.killer_name() {
            match self.players.take(name.as_str()) {
                Some((key, mut player)) => {
                    assert(s.players.contains_key(name@));
                    assert(player@.deaths_count <= s.total_deaths);
                    player.add_death(weapon);
                    self.players.insert_new(key, player);
                },
                None => {
                    let mut player = PlayerStats::new();
                    player.add_death(weapon);
                    self.players.insert_new(name.clone(), player);
                },
            }
        }
        if let Some(name) = death.killed_by() {
            match self.weapons.take(name.as_str()) {
                Some((key, mut stats)) => {
                    assert(s.weapons.contains_key(name@));
                    assert(stats@.death_count <= s.total_deaths);
                    stats.add_death(distance);
                    self.weapons.insert_new(key, stats);
                },
                None => {
                    let mut stats = WeaponStats::new();
                    stats.add_death(distance);
                    self.weapons.insert_new(name.clone(), stats);
                },
            }
        }
        proof {
            assert(self@.players =~= stats_absorb(s, death@).players);
            assert(self@.weapons =~= stats_absorb(s, death@).weapons);
        }
    }

    /// Aggregates a sequence of records.
    pub fn from_deaths(deaths: &[Death]) -> (r: Self)
        ensures
            r.wf(),
            r@ == stats_of(records_of(deaths@)),
    {
        let mut stats = Stats::new();
        let mut i: usize = 0;
        while i < deaths.len()
            invariant
                i <= deaths@.len(),
                stats.wf(),
                stats@.total_deaths == i,
                stats@ == stats_of(records_of(deaths@).take(i as int)),
            decreases deaths@.len() - i,
        {
            stats.add_death(&deaths[i]);
            proof {
                assert(records_of(deaths@).take(i + 1).drop_last() =~= records_of(deaths@).take(
                    i as int,
                ));
            }
            i = i + 1;
        }
        proof {
            assert(records_of(deaths@).take(i as int) =~= records_of(deaths@));
        }
        stats
    }

    /// Merges another `Stats` instance into this one.
    pub fn merge(&mut self, other: Stats)
        requires
            old(self).wf(),
            other.wf(),
            old(self)@.total_deaths + other@.total_deaths <= usize::MAX,
        ensures
            final(self).wf(),
            final(self)@ == stats_combine(old(self)@, other@),
    {
        let ghost a = self@;
        let ghost b = other@;
        assert(stats_tally_bounded(a));
        assert(stats_tally_bounded(b));
        self.total_deaths = self.total_deaths + other.total_deaths;
        let mut rest = other.players;
        loop
            invariant
                self.players.wf(),
                rest.wf(),
                self.weapons@ == a.weapons,
                self.weapons.wf(),
                self.total_deaths == a.total_deaths + b.total_deaths,
                stats_tally_bounded(a),
                stats_tally_bounded(b),
                players_combine(self.players@, rest@) == players_combine(a.players, b.players),
                forall|k: Seq<char>| #[trigger]
                    self.players@.contains_key(k) ==> self.players@[k].deaths_count
                        <= self.total_deaths,
            ensures
                self.players.wf(),
                self.weapons@ == a.weapons,
                self.weapons.wf(),
                self.total_deaths == a.total_deaths + b.total_deaths,
                self.players@ == players_combine(a.players, b.players),
                forall|k: Seq<char>| #[trigger]
                    self.players@.contains_key(k) ==> self.players@[k].deaths_count
                        <= self.total_deaths,
            decreases rest@.len(),
        {
            let ghost s = self.players@;
            let ghost r = rest@;
            match rest.pop() {
                None => {
                    proof {
                        assert forall|k: Seq<char>| #[trigger] s.contains_key(k) implies
                            players_combine(s, r)[k] == s[k] by {
                            lemma_player_combine_zero(s[k]);
                        }
                        assert(players_combine(s, r) =~= s);
                    }
                    break;
                },
                Some((key, theirs)) => {
                    let ghost k = key@;
                    proof {
                        lemma_players_at(s, r, k);
                        lemma_players_at(a.players, b.players, k);
                        assert(player_or_zero(players_combine(a.players, b.players), k).deaths_count
                            <= a.total_deaths + b.total_deaths);
                    }
                    let ghost merged;
                    match self.players.take(key.as_str()) {
                        Some((key2, mut mine)) => {
                            mine.merge(theirs);
                            proof {
                                merged = mine@;
                            }
                            self.players.insert_new(key2, mine);
                        },
                        None => {
                            proof {
                                merged = theirs@;
                                lemma_player_zero_combine(theirs@);
                            }
                            self.players.insert_new(key, theirs);
                        },
                    }
                    proof {
                        let s2 = self.players@;
                        let r2 = rest@;
                        assert(merged == player_combine(player_or_zero(s, k), r[k]));
                        assert forall|q: Seq<char>| #[trigger]
                            players_combine(s2, r2).contains_key(q) implies players_combine(
                            s2,
                            r2,
                        )[q] == players_combine(s, r)[q] by {
                            if q == k {
                                lemma_player_combine_zero(merged);
                            }
                        }
                        assert(players_combine(s2, r2) =~= players_combine(s, r));
                    }
                },
            }
        }
        let mut rest = other.weapons;
        loop
            invariant
                self.players.wf(),
                self.weapons.wf(),
                rest.wf(),
                self.total_deaths == a.total_deaths + b.total_deaths,
                stats_tally_bounded(a),
                stats_tally_bounded(b),
                self.players@ == players_combine(a.players, b.players),
                forall|k: Seq<char>| #[trigger]
                    self.players@.contains_key(k) ==> self.players@[k].deaths_count
                        <= self.total_deaths,
                weapons_combine(self.weapons@, rest@) == weapons_combine(a.weapons, b.weapons),
                forall|k: Seq<char>| #[trigger]
                    self.weapons@.contains_key(k) ==> self.weapons@[k].death_count
                        <= self.total_deaths,
            ensures
                self.weapons@ == weapons_combine(a.weapons, b.weapons),
                self.players.wf(),
                self.weapons.wf(),
                self.total_deaths == a.total_deaths + b.total_deaths,
                self.players@ == players_combine(a.players, b.players),
                forall|k: Seq<char>| #[trigger]
                    self.players@.contains_key(k) ==> self.players@[k].deaths_count
                        <= self.total_deaths,
                forall|k: Seq<char>| #[trigger]
                    self.weapons@.contains_key(k) ==> self.weapons@[k].death_count
                        <= self.total_deaths,
            decreases rest@.len(),
        {
            let ghost s = self.weapons@;
            let ghost r = rest@;
            match rest.pop() {
                None => {
                    proof {
                        assert(weapons_combine(s, r) =~= s);
                    }
                    break;
                },
                Some((key, theirs)) => {
                    let ghost k = key@;
                    proof {
                        lemma_weapons_at(s, r, k);
                        lemma_weapons_at(a.weapons, b.weapons, k);
                        assert(weapon_or_zero(weapons_combine(a.weapons, b.weapons), k).death_count
                            <= a.total_deaths + b.total_deaths);
                    }
                    match self.weapons.take(key.as_str()) {
                        Some((key2, mut mine)) => {
                            mine.merge(&theirs);
                            self.weapons.insert_new(key2, mine);
                        },
                        None => {
                            self.weapons.insert_new(key, theirs);
                        },
                    }
                    proof {
                        let s2 = self.weapons@;
                        let r2 = rest@;
                        assert(weapons_combine(s2, r2) =~= weapons_combine(s, r));
                    }
                },
            }
        }
    }

    /// Keeps the top `player_count` players by kills, and for each of them its top
    /// `weapon_count` weapons.
    pub fn filter_top_killers(&mut self, player_count: usize, weapon_count: usize)
        requires
            old(self).wf(),
        ensures
            final(self).wf(),
            top_killers_of(old(self)@, final(self)@, player_count as nat, weapon_count as nat),
    {
        let ghost a = self@;
        retain_top_elements(&mut self.players, player_count);
        let ghost p = self.players@;
        proof {
            assert(scores_of::<PlayerStats>(a.players) =~= player_scores(a.players));
        }
        let mut filtered: KeyTable<PlayerStats> = KeyTable::new();
        loop
            invariant
                self.players.wf(),
                filtered.wf(),
                self.weapons.wf(),
                self.weapons@ == a.weapons,
                self.total_deaths == a.total_deaths,
                stats_tally_bounded(a),
                keeps_top(p, a.players, player_scores(a.players), player_count as nat),
                self.players@ == p.remove_keys(filtered@.dom()),
                filtered@.dom().subset_of(p.dom()),
                forall|k: Seq<char>| #[trigger]
                    filtered@.contains_key(k) ==> player_top_weapons(
                        p[k],
                        filtered@[k],
                        weapon_count as nat,
                    ),
            ensures
                self.weapons.wf(),
                self.weapons@ == a.weapons,
                self.total_deaths == a.total_deaths,
                filtered.wf(),
                filtered@.dom() == p.dom(),
                forall|k: Seq<char>| #[trigger]
                    filtered@.contains_key(k) ==> player_top_weapons(
                        p[k],
                        filtered@[k],
                        weapon_count as nat,
                    ),
            decreases self.players@.len(),
        {
            let ghost rest = self.players@;
            match self.players.pop() {
                Some((key, mut player)) => {
                    player.filter_top_weapons(weapon_count);
                    proof {
                        assert(!filtered@.contains_key(key@));
                    }
                    filtered.insert_new(key, player);
                    proof {
                        assert(self.players@ =~= p.remove_keys(filtered@.dom()));
                    }
                },
                None => {
                    proof {
                        assert forall|k: Seq<char>| p.contains_key(k) implies #[trigger] filtered@.contains_key(k) by {
                            if !filtered@.contains_key(k) {
                                assert(rest.contains_key(k));
                            }
                        }
                        assert(filtered@.dom() =~= p.dom());
                    }
                    break;
                },
            }
        }
        self.players = filtered;
        proof {
            assert forall|k: Seq<char>| #[trigger] self@.players.contains_key(k) implies
                self@.players[k].deaths_count <= self@.total_deaths by {
                assert(p.contains_key(k));
                assert(a.players.contains_key(k));
                assert(p[k] == a.players[k]);
            }
        }
    }

    /// Keeps the top `weapon_count` weapons by kills.
    pub fn filter_top_weapons(&mut self, weapon_count: usize)
        requires
            old(self).wf(),
        ensures
            final(self).wf(),
            top_weapons_of(old(self)@, final(self)@, weapon_count as nat),
    {
        let ghost a = self@;
        assert(stats_tally_bounded(a));
        retain_top_elements(&mut self.weapons, weapon_count);
        proof {
            assert(scores_of::<WeaponStats>(a.weapons) =~= weapon_scores(a.weapons));
            assert forall|k: Seq<char>| #[trigger] self@.weapons.contains_key(k) implies
                self@.weapons[k].death_count <= self@.total_deaths by {
                assert(self@.weapons == a.weapons.restrict(self@.weapons.dom()));
                assert(a.weapons.restrict(self@.weapons.dom()).contains_key(k));
                assert(a.weapons.contains_key(k));
                assert(a.weapons.restrict(self@.weapons.dom())[k] == a.weapons[k]);
            }
            assert(self@.players == a.players);
            assert(stats_tally_bounded(self@));
        }
    }

    /// Keeps the top `player_count` players, each with its top
    /// `weapon_count_per_player` weapons, and the top `weapon_count` weapons.
    pub fn filter_top(&mut self, player_count: usize, weapon_count: usize, weapon_count_per_player: usize)
        requires
            old(self).wf(),
        ensures
            final(self).wf(),
            is_filtered(
                old(self)@,
                final(self)@,
                player_count as nat,
                weapon_count as nat,
                weapon_count_per_player as nat,
            ),
    {
        self.filter_top_killers(player_count, weapon_count_per_player);
        self.filter_top_weapons(weapon_count);
    }

    /// The number of records aggregated.
    pub fn total_deaths(&self) -> (r: usize)
        ensures
            r == self@.total_deaths,
    {
        self.total_deaths
    }

    /// The statistics of each player.
    pub fn players(&self) -> (r: &KeyTable<PlayerStats>)
        requires
            self.wf(),
        ensures
            r.wf(),
            r@ == self@.players,
    {
        &self.players
    }

    /// The statistics of each weapon.
    pub fn weapons(&self) -> (r: &KeyTable<WeaponStats>)
        requires
            self.wf(),
        ensures
            r.wf(),
            r@ == self@.weapons,
    {
        &self.weapons
    }
}

} // verus!
