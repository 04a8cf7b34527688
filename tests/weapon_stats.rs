use death_stats::weapon_stats::WeaponStats;

#[test]
fn weapon_stats_test_new() {
    let weapon_stats = WeaponStats::new();

    assert_eq!(weapon_stats.death_count(), 0);
    assert_eq!(weapon_stats.death_count_with_distance(), 0);
    assert_eq!(weapon_stats.total_distance(), 0);
}

#[test]
fn weapon_stats_test_add_death() {
    let mut weapon_stats = WeaponStats::new();

    weapon_stats.add_death(Some(100));
    assert_eq!(weapon_stats.death_count(), 1);
    assert_eq!(weapon_stats.death_count_with_distance(), 1);
    assert_eq!(weapon_stats.total_distance(), 100);
}

#[test]
fn test_add_multiple_deaths() {
    let mut weapon_stats = WeaponStats::new();

    weapon_stats.add_death(Some(100));
    weapon_stats.add_death(Some(200));

    assert_eq!(weapon_stats.death_count(), 2);
    assert_eq!(weapon_stats.death_count_with_distance(), 2);
    assert_eq!(weapon_stats.total_distance(), 300);
}

#[test]
fn test_add_no_distance_death() {
    let mut weapon_stats = WeaponStats::new();

    weapon_stats.add_death(None);

    assert_eq!(weapon_stats.death_count(), 1);
    assert_eq!(weapon_stats.death_count_with_distance(), 0);
    assert_eq!(weapon_stats.total_distance(), 0);
}

#[test]
fn weapon_stats_test_merge() {
    let mut weapon_stats_1 = WeaponStats::new();
    let mut weapon_stats_2 = WeaponStats::new();

    weapon_stats_1.add_death(Some(100));
    weapon_stats_1.add_death(None);
    weapon_stats_2.add_death(Some(200));

    weapon_stats_1.merge(&weapon_stats_2);

    assert_eq!(weapon_stats_1.death_count(), 3);
    assert_eq!(weapon_stats_1.death_count_with_distance(), 2);
    assert_eq!(weapon_stats_1.total_distance(), 300);
}

#[test]
fn weapon_merge_is_commutative_on_values() {
    let mut a = WeaponStats::new();
    a.add_death(Some(7));
    a.add_death(None);
    let mut b = WeaponStats::new();
    b.add_death(Some(u64::MAX));

    let mut ab = WeaponStats::new();
    ab.merge(&a);
    ab.merge(&b);
    let mut ba = WeaponStats::new();
    ba.merge(&b);
    ba.merge(&a);

    assert_eq!(ab.death_count(), 3);
    assert_eq!(ab.death_count(), ba.death_count());
    assert_eq!(ab.death_count_with_distance(), 2);
    assert_eq!(ab.death_count_with_distance(), ba.death_count_with_distance());
    assert_eq!(ab.total_distance(), u64::MAX as u128 + 7);
    assert_eq!(ab.total_distance(), ba.total_distance());
}
