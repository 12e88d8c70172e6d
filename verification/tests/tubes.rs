use water_sort::color::Color;
use water_sort::tube::Tube;

fn poured(source: [u8; 4], dest: [u8; 4]) -> (bool, Tube, Tube) {
    let mut a = Tube::new(source, 1);
    let mut b = Tube::new(dest, 2);
    let moved = a.pour(&mut b);
    (moved, a, b)
}

fn slot_counts(a: &Tube, b: &Tube) -> Vec<usize> {
    let mut counts = vec![0; 257];
    for tube in [a, b] {
        for slot in 0..4 {
            counts[tube[slot].ordinal() as usize] += 1;
        }
    }
    counts
}

#[test]
fn one_unit_lands_on_the_bottom_of_an_empty_tube() {
    let (moved, a, b) = poured([1, 2, 3, 4], [0, 0, 0, 0]);
    assert!(moved);
    assert_eq!(a, Tube::new([0, 2, 3, 4], 0));
    assert_eq!(b, Tube::new([0, 0, 0, 1], 0));
}

#[test]
fn a_whole_run_moves_where_there_is_room() {
    let (moved, a, b) = poured([1, 1, 2, 3], [0, 0, 1, 1]);
    assert!(moved);
    assert_eq!(a, Tube::new([0, 0, 2, 3], 0));
    assert_eq!(b, Tube::new([1, 1, 1, 1], 0));
}

#[test]
fn a_full_tube_empties_into_an_empty_one() {
    let (moved, a, b) = poured([5, 5, 5, 5], [0, 0, 0, 0]);
    assert!(moved);
    assert_eq!(a, Tube::new([0, 0, 0, 0], 0));
    assert_eq!(b, Tube::new([5, 5, 5, 5], 0));
}

#[test]
fn a_run_is_cut_down_to_the_room() {
    let (moved, a, b) = poured([0, 7, 7, 7], [0, 0, 7, 2]);
    assert!(moved);
    assert_eq!(a, Tube::new([0, 0, 0, 7], 0));
    assert_eq!(b, Tube::new([7, 7, 7, 2], 0));
}

#[test]
fn another_color_on_top_refuses_the_pour() {
    let (moved, a, b) = poured([1, 2, 3, 4], [0, 0, 2, 3]);
    assert!(!moved);
    assert_eq!(a, Tube::new([1, 2, 3, 4], 0));
    assert_eq!(b, Tube::new([0, 0, 2, 3], 0));
}

#[test]
fn a_full_tube_takes_nothing_even_of_its_own_color() {
    let (moved, a, b) = poured([0, 0, 0, 1], [1, 1, 1, 2]);
    assert!(!moved);
    assert_eq!(a, Tube::new([0, 0, 0, 1], 0));
    assert_eq!(b, Tube::new([1, 1, 1, 2], 0));
}

#[test]
fn an_empty_tube_pours_nothing() {
    let (moved, a, b) = poured([0, 0, 0, 0], [0, 0, 3, 3]);
    assert!(!moved);
    assert_eq!(a, Tube::new([0, 0, 0, 0], 0));
    assert_eq!(b, Tube::new([0, 0, 3, 3], 0));
}

#[test]
fn a_pour_keeps_the_identities() {
    let (_, a, b) = poured([1, 1, 2, 3], [0, 0, 1, 1]);
    assert_eq!(a.id, 1);
    assert_eq!(b.id, 2);
}

#[test]
fn a_pour_makes_and_loses_nothing() {
    let tubes: [[u8; 4]; 8] = [
        [0, 0, 0, 0],
        [0, 0, 0, 1],
        [0, 0, 1, 1],
        [0, 1, 1, 2],
        [1, 1, 1, 1],
        [1, 2, 1, 2],
        [0, 2, 2, 1],
        [0, 0, 2, 1],
    ];
    for source in tubes {
        for dest in tubes {
            let before = slot_counts(&Tube::new(source, 0), &Tube::new(dest, 0));
            let (moved, a, b) = poured(source, dest);
            assert_eq!(slot_counts(&a, &b), before);
            let unchanged = a == Tube::new(source, 0) && b == Tube::new(dest, 0);
            assert_eq!(moved, !unchanged);
        }
    }
}

#[test]
fn liquid_above_a_gap_falls_past_it() {
    let (moved, a, b) = poured([0, 0, 0, 4], [9, 0, 0, 0]);
    assert!(moved);
    assert_eq!(a, Tube::new([0, 0, 0, 0], 0));
    assert_eq!(b, Tube::new([9, 0, 0, 4], 0));
}

#[test]
fn a_unit_lands_above_the_highest_occupied_slot() {
    assert_eq!(Tube::new([0, 0, 0, 0], 0).landing_slot(Color::Full(1)), Some(3));
    assert_eq!(Tube::new([0, 0, 0, 1], 0).landing_slot(Color::Full(1)), Some(2));
    assert_eq!(Tube::new([0, 0, 1, 1], 0).landing_slot(Color::Full(1)), Some(1));
    assert_eq!(Tube::new([0, 1, 1, 1], 0).landing_slot(Color::Full(1)), Some(0));
    assert_eq!(Tube::new([1, 1, 1, 1], 0).landing_slot(Color::Full(1)), None);
    assert_eq!(Tube::new([0, 0, 0, 2], 0).landing_slot(Color::Full(1)), None);
}

#[test]
fn uniform_means_four_equal_slots() {
    assert!(Tube::new([0, 0, 0, 0], 0).is_uniform());
    assert!(Tube::new([3, 3, 3, 3], 0).is_uniform());
    assert!(!Tube::new([0, 3, 3, 3], 0).is_uniform());
    assert!(!Tube::new([3, 3, 3, 4], 0).is_uniform());
    assert!(!Tube::new([1, 2, 1, 2], 0).is_uniform());
}

#[test]
fn equality_looks_at_colors_only() {
    assert_eq!(Tube::new([1, 2, 3, 4], 1), Tube::new([1, 2, 3, 4], 2));
    assert_ne!(Tube::new([1, 2, 3, 4], 1), Tube::new([1, 2, 4, 3], 1));
}

#[test]
fn order_looks_at_colors_only() {
    assert!(Tube::new([0, 0, 0, 0], 9) < Tube::new([0, 0, 0, 1], 1));
    assert!(Tube::new([0, 0, 0, 255], 1) < Tube::new([0, 0, 1, 0], 2));
    assert!(Tube::new([1, 0, 0, 0], 1) > Tube::new([0, 255, 255, 255], 2));
    assert!(Tube::new([1, 2, 3, 4], 1) <= Tube::new([1, 2, 3, 4], 2));
    assert!(Tube::new([1, 2, 3, 4], 2) <= Tube::new([1, 2, 3, 4], 1));
}

#[test]
fn the_key_reads_the_slots_in_base_257() {
    assert_eq!(Tube::new([0, 0, 0, 0], 0).sort_key(), 0);
    assert_eq!(Tube::new([0, 0, 0, 1], 0).sort_key(), 2);
    assert_eq!(Tube::new([0, 0, 1, 0], 0).sort_key(), 2 * 257);
    assert_eq!(Tube::new([1, 2, 3, 4], 0).sort_key(), ((2 * 257 + 3) * 257 + 4) * 257 + 5);
    assert_eq!(Tube::new([255, 255, 255, 255], 0).sort_key(), 4_362_470_400);
}

#[test]
fn slots_past_the_bottom_read_empty() {
    let tube = Tube::new([1, 2, 3, 4], 0);
    assert_eq!(tube[3], Color::Full(4));
    assert_eq!(tube[4], Color::Empty);
    assert_eq!(tube[usize::MAX], Color::Empty);
}
