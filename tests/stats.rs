use death_stats::deaths::Death;
use death_stats::stats::Stats;

/// A record as a parsed CSV line gives it: weapon, killer, killer and victim positions.
fn death(weapon: &str, killer: &str, killer_pos: (i32, i32), victim_pos: (i32, i32)) -> Death {
    let name = |s: &str| if s.is_empty() { None } else { Some(s.to_string()) };
    Death::new(
        name(weapon),
        name(killer),
        Some(killer_pos.0),
        Some(killer_pos.1),
        Some(victim_pos.0),
        Some(victim_pos.1),
    )
}

fn death_record_1() -> Death {
    death("AK47", "Player1", (0, 0), (100, 0))
}

fn death_record_2() -> Death {
    death("AK47", "Player2", (0, 0), (100, 0))
}

fn death_record_3() -> Death {
    death("M4A4", "Player1", (0, 0), (100, 0))
}

fn stats_from_deaths(deaths: Vec<Death>) -> Stats {
    Stats::from_deaths(&deaths)
}

#[test]
fn test_stats_from_deaths() {
    let stats = stats_from_deaths(vec![death_record_1()]);

    assert_eq!(stats.total_deaths(), 1);
    assert_eq!(stats.players().len(), 1);
    assert_eq!(stats.weapons().len(), 1);
}

#[test]
fn test_stats_from_multiple_deaths() {
    let stats = stats_from_deaths(vec![death_record_1(), death_record_1()]);

    assert_eq!(stats.total_deaths(), 2);
    assert_eq!(stats.players().len(), 1);
    assert_eq!(stats.weapons().len(), 1);
}

#[test]
fn test_stats_from_multiple_players() {
    let stats = stats_from_deaths(vec![death_record_1(), death_record_2()]);

    assert_eq!(stats.total_deaths(), 2);
    assert_eq!(stats.players().len(), 2);
    assert_eq!(stats.weapons().len(), 1);
}

#[test]
fn test_stats_from_multiple_weapons() {
    let stats = stats_from_deaths(vec![death_record_1(), death_record_3()]);

    assert_eq!(stats.total_deaths(), 2);
    assert_eq!(stats.players().len(), 1);
    assert_eq!(stats.weapons().len(), 2);
}

#[test]
fn test_stats_merge() {
    let mut stats_1 = stats_from_deaths(vec![death_record_1()]);
    let stats_2 = stats_from_deaths(vec![death_record_2(), death_record_3()]);

    stats_1.merge(stats_2);

    assert_eq!(stats_1.total_deaths(), 3);
    assert_eq!(stats_1.players().len(), 2);
    assert_eq!(stats_1.weapons().len(), 2);
}

#[test]
fn test_filter_top_killers() {
    let mut stats = stats_from_deaths(vec![death_record_1(), death_record_2()]);

    stats.filter_top_killers(1, 1);

    assert_eq!(stats.players().len(), 1);
    assert_eq!(stats.weapons().len(), 1);
}

#[test]
fn stats_test_filter_top_weapons() {
    let mut stats = stats_from_deaths(vec![death_record_1(), death_record_1(), death_record_3()]);

    stats.filter_top_weapons(1);

    assert_eq!(stats.weapons().len(), 1);
}

#[test]
fn test_filter_on_players_tie_resolve_alphabetically() {
    let mut stats = stats_from_deaths(vec![death_record_2(), death_record_1()]);

    stats.filter_top_killers(1, 1);

    assert_eq!(stats.players().len(), 1);
    assert!(stats.players().contains_key("Player1"));
    assert!(!stats.players().contains_key("Player2"));
}

#[test]
fn stats_test_filter_on_weapons_tie_resolve_alphabetically() {
    let mut stats = stats_from_deaths(vec![death_record_3(), death_record_1()]);

    stats.filter_top_weapons(1);

    assert_eq!(stats.weapons().len(), 1);
    assert!(stats.weapons().contains_key("AK47"));
}

#[test]
fn aggregate_of_no_records_is_empty() {
    let stats = stats_from_deaths(vec![]);

    assert_eq!(stats.total_deaths(), 0);
    assert!(stats.players().is_empty());
    assert!(stats.weapons().is_empty());
}

#[test]
fn filter_with_zero_limits_keeps_nothing() {
    let mut stats = stats_from_deaths(vec![death_record_1(), death_record_2(), death_record_3()]);

    stats.filter_top(0, 0, 0);

    assert!(stats.players().is_empty());
    assert!(stats.weapons().is_empty());
    assert_eq!(stats.total_deaths(), 3);
}

#[test]
fn single_record_scenario() {
    let stats = stats_from_deaths(vec![death("AK47", "Player1", (0, 0), (100, 0))]);

    let player = stats.players().get("Player1").unwrap();
    assert_eq!(player.deaths_count(), 1);
    assert_eq!(player.weapons().get("AK47"), Some(&1));
    let weapon = stats.weapons().get("AK47").unwrap();
    assert_eq!(weapon.death_count(), 1);
    assert_eq!(weapon.total_distance(), 100);
}

#[test]
fn missing_killer_position_scenario() {
    let without_position = Death::new(
        Some("AK47".to_string()),
        Some("Player1".to_string()),
        None,
        None,
        Some(100),
        Some(0),
    );
    let stats = stats_from_deaths(vec![death_record_1(), without_position]);

    let weapon = stats.weapons().get("AK47").unwrap();
    assert_eq!(weapon.death_count(), 2);
    assert_eq!(weapon.death_count_with_distance(), 1);
    assert_eq!(weapon.total_distance(), 100);
}

#[test]
fn filter_keeps_player_with_more_kills() {
    let mut stats = stats_from_deaths(vec![death_record_2(), death_record_1(), death_record_3()]);

    stats.filter_top(1, 10, 10);

    assert_eq!(stats.players().len(), 1);
    assert_eq!(stats.players().get("Player1").unwrap().deaths_count(), 2);
    assert!(!stats.players().contains_key("Player2"));
    assert_eq!(stats.weapons().len(), 2);
}

#[test]
fn record_without_killer_or_weapon() {
    let no_killer = death("AK47", "", (0, 0), (3, 4));
    let no_weapon = death("", "Player9", (0, 0), (3, 4));
    let stats = stats_from_deaths(vec![no_killer, no_weapon]);

    assert_eq!(stats.total_deaths(), 2);
    assert_eq!(stats.players().len(), 1);
    let player = stats.players().get("Player9").unwrap();
    assert_eq!(player.deaths_count(), 1);
    assert!(player.weapons().is_empty());
    let weapon = stats.weapons().get("AK47").unwrap();
    assert_eq!(weapon.death_count(), 1);
    assert_eq!(weapon.total_distance(), 5);
}

type PlayerSummary = (String, usize, Vec<(String, usize)>);
type WeaponSummary = (String, usize, usize, u128);

/// Everything the statistics hold, in name order.
fn summary(stats: &Stats) -> (usize, Vec<PlayerSummary>, Vec<WeaponSummary>) {
    let mut players: Vec<PlayerSummary> = stats
        .players()
        .entries()
        .iter()
        .map(|(name, p)| {
            let mut weapons: Vec<(String, usize)> = p.weapons().entries().clone();
            weapons.sort();
            (name.clone(), p.deaths_count(), weapons)
        })
        .collect();
    players.sort();
    let mut weapons: Vec<WeaponSummary> = stats
        .weapons()
        .entries()
        .iter()
        .map(|(name, w)| {
            (name.clone(), w.death_count(), w.death_count_with_distance(), w.total_distance())
        })
        .collect();
    weapons.sort();
    (stats.total_deaths(), players, weapons)
}

fn sample() -> Vec<Death> {
    vec![
        death("AK47", "Player1", (0, 0), (100, 0)),
        death("M4A4", "Player2", (0, 0), (30, 40)),
        death("AK47", "Player2", (1, 1), (4, 5)),
        death("", "Player3", (0, 0), (1, 1)),
        death("AWM", "", (0, 0), (0, 7)),
        death("AK47", "Player1", (-5, 0), (5, 0)),
    ]
}

#[test]
fn merging_groups_matches_whole_aggregate() {
    let records = sample();
    let whole = Stats::from_deaths(&records);

    let mut left_first = Stats::from_deaths(&records[0..2]);
    left_first.merge(Stats::from_deaths(&records[2..4]));
    left_first.merge(Stats::from_deaths(&records[4..6]));

    let mut right_first = Stats::from_deaths(&records[2..4]);
    right_first.merge(Stats::from_deaths(&records[4..6]));
    let mut outer = Stats::from_deaths(&records[0..2]);
    outer.merge(right_first);

    assert_eq!(summary(&whole), summary(&left_first));
    assert_eq!(summary(&whole), summary(&outer));
    assert_eq!(whole.weapons().get("AK47").unwrap().total_distance(), 100 + 5 + 10);
}

#[test]
fn merge_order_does_not_matter() {
    let records = sample();
    let mut ab = Stats::from_deaths(&records[0..3]);
    ab.merge(Stats::from_deaths(&records[3..6]));
    let mut ba = Stats::from_deaths(&records[3..6]);
    ba.merge(Stats::from_deaths(&records[0..3]));

    assert_eq!(summary(&ab), summary(&ba));
}

#[test]
fn filtering_twice_changes_nothing() {
    let mut once = Stats::from_deaths(&sample());
    once.filter_top(2, 1, 1);
    let mut twice = Stats::from_deaths(&sample());
    twice.filter_top(2, 1, 1);
    twice.filter_top(2, 1, 1);

    assert_eq!(summary(&once), summary(&twice));
    assert_eq!(once.players().len(), 2);
    assert_eq!(once.weapons().len(), 1);
    assert!(once.weapons().contains_key("AK47"));
    assert_eq!(once.players().get("Player2").unwrap().weapons().get("AK47"), Some(&1));
}
