#![allow(non_upper_case_globals)]

use st_click::beat_values::{
    tuplet, Crotchet, EighthNote, HalfNote, Minit, QuarterNote, Quaver, Semibreve, Semiquaver,
    SixteenthNote, WholeNote, TICKS_PER_BEAT,
};

fn beats(t: u64) -> f64 {
    t as f64 / TICKS_PER_BEAT as f64
}

#[test]
fn note_value_aliases_match() {
    assert_eq!(Semibreve, WholeNote);
    assert_eq!(Minit, HalfNote);
    assert_eq!(Crotchet, QuarterNote);
    assert_eq!(Quaver, EighthNote);
    assert_eq!(Semiquaver, SixteenthNote);
}

#[test]
fn note_value_ratios() {
    assert_eq!(beats(WholeNote), 4.0);
    assert_eq!(beats(HalfNote), 2.0);
    assert_eq!(beats(QuarterNote), 1.0);
    assert_eq!(beats(EighthNote), 0.5);
    assert_eq!(beats(SixteenthNote), 0.25);
}

#[test]
fn tuplet_triplet_of_quarter_is_two_thirds() {
    // A quarter-note triplet (3 in the space of 2 quarters)
    // value = 1.0 * 2 / 3 = 0.6666...
    let v = beats(tuplet(QuarterNote, 3).unwrap());
    assert!((v - (2.0 / 3.0)).abs() < 1e-6);
}

#[test]
fn tuplet_septuplet_of_quarter() {
    // 7 in the space of 2 quarters -> 2/7
    let v = beats(tuplet(QuarterNote, 7).unwrap());
    assert!((v - (2.0 / 7.0)).abs() < 1e-6);
}

#[test]
fn tuplet_duplet_of_quarter_equals_whole_note_division() {
    // 2 in the space of 2 = 1.0 (no-op)
    assert_eq!(beats(tuplet(QuarterNote, 2).unwrap()), 1.0);
}

#[test]
fn tuplet_values_are_exact_ticks() {
    assert_eq!(tuplet(QuarterNote, 3), Some(QuarterNote * 2 / 3));
    assert_eq!(tuplet(QuarterNote, 7), Some(3_294_720));
    assert_eq!(tuplet(EighthNote, 5), Some(2_306_304));
}

#[test]
fn tuplet_rounds_to_nearest_tick() {
    // 2 * 10 / 3 = 6.67 -> 7; 2 * 1 / 4 = 0.5 -> 1; 2 * 1 / 5 = 0.4 -> 0.
    assert_eq!(tuplet(10, 3), Some(7));
    assert_eq!(tuplet(1, 4), Some(1));
    assert_eq!(tuplet(1, 5), Some(0));
}

#[test]
fn tuplet_of_zero_has_no_value() {
    assert_eq!(tuplet(QuarterNote, 0), None);
}

#[test]
fn tuplet_too_large_has_no_value() {
    assert_eq!(tuplet(u64::MAX, 1), None);
    assert_eq!(tuplet(u64::MAX / 2, 1), Some(u64::MAX - 1));
}
