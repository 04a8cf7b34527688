use death_stats::deaths::Death;

fn complete_record() -> Death {
    Death::new(
        Some("AK47".to_string()),
        Some("Player1".to_string()),
        Some(0),
        Some(0),
        Some(100),
        Some(0),
    )
}

#[test]
fn test_distance() {
    let death = complete_record();

    assert_eq!(death.distance(), Some(100));
}

#[test]
fn test_no_distance() {
    let death = Death::new(
        Some("AK47".to_string()),
        Some("Player1".to_string()),
        None,
        None,
        None,
        None,
    );

    assert_eq!(death.distance(), None);
}

#[test]
fn distance_is_rounded_down() {
    let pythagorean = Death::new(None, None, Some(0), Some(0), Some(3), Some(4));
    let diagonal = Death::new(None, None, Some(0), Some(0), Some(1), Some(1));
    let short = Death::new(None, None, Some(2), Some(2), Some(4), Some(3));

    assert_eq!(pythagorean.distance(), Some(5));
    assert_eq!(diagonal.distance(), Some(1));
    assert_eq!(short.distance(), Some(2));
}

#[test]
fn distance_at_the_extremes() {
    let far = Death::new(None, None, Some(i32::MIN), Some(i32::MIN), Some(i32::MAX), Some(i32::MAX));
    let same = Death::new(None, None, Some(-7), Some(9), Some(-7), Some(9));
    let one_missing = Death::new(None, None, Some(1), Some(2), Some(3), None);

    // the span is 2^32 - 1 on both axes: (2^32 - 1) * sqrt 2, rounded down
    assert_eq!(far.distance(), Some(6_074_000_998));
    assert_eq!(same.distance(), Some(0));
    assert_eq!(one_missing.distance(), None);
}

#[test]
fn names_are_kept() {
    let death = complete_record();

    assert_eq!(death.killed_by(), &Some("AK47".to_string()));
    assert_eq!(death.killer_name(), &Some("Player1".to_string()));
}
