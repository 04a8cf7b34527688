use death_stats::sorting::retain_top_elements;
use death_stats::table::KeyTable;

fn table_of(pairs: &[(&str, usize)]) -> KeyTable<usize> {
    let mut t = KeyTable::new();
    for (k, v) in pairs {
        t.insert_new(k.to_string(), *v);
    }
    t
}

#[test]
fn test_retain_top_elements() {
    let mut elements = table_of(&[("1", 1), ("2", 2), ("3", 3), ("4", 4), ("5", 5)]);

    retain_top_elements(&mut elements, 3);

    assert_eq!(elements.len(), 3);
    assert_eq!(elements.get("3"), Some(&3));
    assert_eq!(elements.get("4"), Some(&4));
    assert_eq!(elements.get("5"), Some(&5));
}

#[test]
fn test_retain_empty_map() {
    let mut elements: KeyTable<usize> = KeyTable::new();

    retain_top_elements(&mut elements, 3);

    assert!(elements.is_empty());
}

#[test]
fn test_retain_less_elements_than_capacity() {
    let mut elements = table_of(&[("1", 1), ("2", 2)]);

    retain_top_elements(&mut elements, 3);

    assert_eq!(elements.len(), 2);
    assert_eq!(elements.get("1"), Some(&1));
    assert_eq!(elements.get("2"), Some(&2));
}

#[test]
fn retain_zero_keeps_nothing() {
    let mut elements = table_of(&[("a", 4), ("b", 9)]);

    retain_top_elements(&mut elements, 0);

    assert!(elements.is_empty());
}

#[test]
fn retain_breaks_ties_by_name() {
    let mut elements = table_of(&[("Zed", 2), ("Bob", 5), ("Amy", 2), ("Cat", 2)]);

    retain_top_elements(&mut elements, 2);

    assert_eq!(elements.len(), 2);
    assert_eq!(elements.get("Bob"), Some(&5));
    assert_eq!(elements.get("Amy"), Some(&2));
    assert!(!elements.contains_key("Cat"));
    assert!(!elements.contains_key("Zed"));
}

#[test]
fn retain_twice_changes_nothing() {
    let mut elements = table_of(&[("p", 3), ("q", 1), ("r", 8), ("s", 3)]);

    retain_top_elements(&mut elements, 2);
    retain_top_elements(&mut elements, 2);

    assert_eq!(elements.len(), 2);
    assert_eq!(elements.get("r"), Some(&8));
    assert_eq!(elements.get("p"), Some(&3));
}
