use death_stats::player_stats::PlayerStats;

const WEAPON_1: &str = "AK47";
const WEAPON_2: &str = "M4A4";

#[test]
fn player_stats_test_new() {
    let player_stats = PlayerStats::new();

    assert_eq!(player_stats.deaths_count(), 0);
    assert!(player_stats.weapons().is_empty());
}

#[test]
fn player_stats_test_add_death() {
    let mut player_stats = PlayerStats::new();

    player_stats.add_death(Some(WEAPON_1.to_string()));

    assert_eq!(player_stats.deaths_count(), 1);
    assert_eq!(player_stats.weapons().len(), 1);
}

#[test]
fn test_add_two_deaths_same_weapon() {
    let mut player_stats = PlayerStats::new();

    player_stats.add_death(Some(WEAPON_1.to_string()));
    player_stats.add_death(Some(WEAPON_1.to_string()));

    assert_eq!(player_stats.deaths_count(), 2);
    assert_eq!(player_stats.weapons().len(), 1);
    assert_eq!(player_stats.weapons().get(WEAPON_1), Some(&2));
}

#[test]
fn test_add_two_deaths_different_weapons() {
    let mut player_stats = PlayerStats::new();

    player_stats.add_death(Some(WEAPON_1.to_string()));
    player_stats.add_death(Some(WEAPON_2.to_string()));

    assert_eq!(player_stats.deaths_count(), 2);
    assert_eq!(player_stats.weapons().len(), 2);
    assert_eq!(player_stats.weapons().get(WEAPON_1), Some(&1));
    assert_eq!(player_stats.weapons().get(WEAPON_2), Some(&1));
}

#[test]
fn test_add_death_no_weapon() {
    let mut player_stats = PlayerStats::new();

    player_stats.add_death(None);

    assert_eq!(player_stats.deaths_count(), 1);
    assert!(player_stats.weapons().is_empty());
}

#[test]
fn player_stats_test_merge() {
    let mut player_stats_1 = PlayerStats::new();
    player_stats_1.add_death(Some(WEAPON_1.to_string()));
    player_stats_1.add_death(Some(WEAPON_2.to_string()));

    let mut player_stats_2 = PlayerStats::new();
    player_stats_2.add_death(Some(WEAPON_1.to_string()));
    player_stats_2.add_death(Some(WEAPON_1.to_string()));

    player_stats_1.merge(player_stats_2);

    assert_eq!(player_stats_1.deaths_count(), 4);
    assert_eq!(player_stats_1.weapons().len(), 2);
    assert_eq!(player_stats_1.weapons().get(WEAPON_1), Some(&3));
    assert_eq!(player_stats_1.weapons().get(WEAPON_2), Some(&1));
}

#[test]
fn player_stats_test_filter_top_weapons() {
    let mut player_stats = PlayerStats::new();
    player_stats.add_death(Some(WEAPON_1.to_string()));
    player_stats.add_death(Some(WEAPON_1.to_string()));
    player_stats.add_death(Some(WEAPON_2.to_string()));

    player_stats.filter_top_weapons(1);

    assert_eq!(player_stats.weapons().len(), 1);
    assert_eq!(player_stats.weapons().get(WEAPON_1), Some(&2));
}

#[test]
fn player_stats_test_filter_on_weapons_tie_resolve_alphabetically() {
    let mut player_stats = PlayerStats::new();
    player_stats.add_death(Some(WEAPON_2.to_string()));
    player_stats.add_death(Some(WEAPON_1.to_string()));

    player_stats.filter_top_weapons(1);

    assert_eq!(player_stats.weapons().len(), 1);
    assert_eq!(player_stats.weapons().get(WEAPON_1), Some(&1));
}

#[test]
fn player_merge_is_commutative_on_values() {
    let build = |weapons: &[&str]| {
        let mut p = PlayerStats::new();
        for w in weapons {
            p.add_death(Some(w.to_string()));
        }
        p
    };
    let mut ab = build(&[WEAPON_1, WEAPON_2]);
    ab.merge(build(&[WEAPON_1, "AWM"]));
    let mut ba = build(&[WEAPON_1, "AWM"]);
    ba.merge(build(&[WEAPON_1, WEAPON_2]));

    assert_eq!(ab.deaths_count(), ba.deaths_count());
    assert_eq!(ab.weapons().len(), ba.weapons().len());
    for name in [WEAPON_1, WEAPON_2, "AWM"] {
        assert_eq!(ab.weapons().get(name), ba.weapons().get(name));
    }
    assert_eq!(ab.weapons().get(WEAPON_1), Some(&2));
}
