use water_sort::color::Color;

#[test]
fn zero_is_the_empty_slot() {
    let c = Color::new(0);
    assert!(c.is_empty());
    assert!(!c.is_value());
}

#[test]
fn every_other_number_is_a_dye() {
    for v in 1..=255u8 {
        let c = Color::new(v);
        assert_eq!(c, Color::Full(v));
        assert!(c.is_value());
        assert!(!c.is_empty());
    }
}

#[test]
fn empty_comes_before_every_dye() {
    assert!(Color::Empty < Color::Full(0));
    assert!(Color::Empty < Color::Full(1));
    assert!(Color::Empty < Color::Full(255));
    assert!(Color::Empty <= Color::Empty);
}

#[test]
fn dyes_are_ordered_by_number() {
    assert!(Color::Full(1) < Color::Full(2));
    assert!(Color::Full(200) > Color::Full(199));
    assert!(Color::Full(7) >= Color::Full(7));
    assert_eq!(Color::Full(3).max(Color::Full(9)), Color::Full(9));
}

#[test]
fn ordinal_counts_from_the_empty_slot() {
    assert_eq!(Color::Empty.ordinal(), 0);
    assert_eq!(Color::Full(0).ordinal(), 1);
    assert_eq!(Color::Full(1).ordinal(), 2);
    assert_eq!(Color::Full(255).ordinal(), 256);
}
