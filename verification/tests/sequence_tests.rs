use st_click::beat_values::TICKS_PER_BEAT;
use st_click::sequencer::{OwnedMidiBytes, Sequence};

fn note(n: u8) -> OwnedMidiBytes {
    vec![0x90, n, 100]
}

fn ticks(b: f64) -> u64 {
    (b * TICKS_PER_BEAT as f64).round() as u64
}

fn signed_ticks(b: f64) -> i64 {
    (b * TICKS_PER_BEAT as f64).round() as i64
}

fn beats(t: u64) -> f64 {
    t as f64 / TICKS_PER_BEAT as f64
}

fn beat_list(s: &Sequence) -> Vec<f64> {
    s.events().iter().map(|e| beats(e.beat)).collect()
}

// ----- Sequence construction -----

#[test]
fn empty_sequence_has_no_events_but_known_span() {
    let s = Sequence::new(ticks(4.0), 1);
    assert_eq!(beats(s.span_beats()), 4.0);
    assert_eq!(s.event_count(), 0);
}

#[test]
fn quarters_in_one_bar_44_yield_four_events() {
    let mut s = Sequence::new(ticks(4.0), 1);
    s.add_notes(note(60), 1, 0, ticks(1.0));
    let beats: Vec<f64> = beat_list(&s);
    assert_eq!(beats, vec![0.0, 1.0, 2.0, 3.0]);
}

#[test]
fn quarters_in_two_bar_44_yield_eight_events() {
    let mut s = Sequence::new(ticks(4.0), 2);
    s.add_notes(note(60), 1, 0, ticks(1.0));
    assert_eq!(s.event_count(), 8);
    assert_eq!(beats(s.events().last().unwrap().beat), 7.0);
}

#[test]
fn skip_three_in_two_bar_44_drops_first_three_quarters() {
    let mut s = Sequence::new(ticks(4.0), 2);
    s.add_notes(note(60), 1, 3, ticks(1.0));
    let beats: Vec<f64> = beat_list(&s);
    assert_eq!(beats, vec![3.0, 4.0, 5.0, 6.0, 7.0]);
}

#[test]
fn every_two_in_one_bar_44_gives_half_note_pulse() {
    let mut s = Sequence::new(ticks(4.0), 1);
    s.add_notes(note(60), 2, 0, ticks(1.0));
    let beats: Vec<f64> = beat_list(&s);
    assert_eq!(beats, vec![0.0, 2.0]);
}

#[test]
fn offset_shifts_events_within_span() {
    let mut s = Sequence::new(ticks(4.0), 1);
    s.add_notes_with_offset(note(60), 1, 0, ticks(1.0), signed_ticks(0.5));
    let beats: Vec<f64> = beat_list(&s);
    assert_eq!(beats, vec![0.5, 1.5, 2.5, 3.5]);
}

#[test]
fn negative_offset_wraps_to_end_of_span() {
    let mut s = Sequence::new(ticks(4.0), 1);
    s.add_notes_with_offset(note(60), 1, 0, ticks(1.0), signed_ticks(-0.25));
    let beats: Vec<f64> = beat_list(&s);
    assert_eq!(beats, vec![0.75, 1.75, 2.75, 3.75]);
}

#[test]
fn events_remain_sorted_after_multiple_add_calls() {
    let mut s = Sequence::new(ticks(4.0), 1);
    s.add_notes(note(60), 1, 0, ticks(1.0));
    s.add_notes(note(62), 1, 0, ticks(0.5));
    let beats: Vec<f64> = beat_list(&s);
    for i in 1..beats.len() {
        assert!(beats[i] >= beats[i - 1], "not sorted at {}: {:?}", i, beats);
    }
}

#[test]
fn sequence_memory_independent_of_tempo_or_runtime() {
    let mut early = Sequence::new(ticks(4.0), 1);
    early.add_notes(note(60), 1, 0, ticks(1.0));

    let mut late = Sequence::new(ticks(4.0), 1);
    late.add_notes(note(60), 1, 0, ticks(1.0));

    assert_eq!(early.event_count(), late.event_count());
    assert!(early.event_count() < 100, "event count should be tiny");
}

// ----- Further cases -----

#[test]
fn equal_beats_keep_older_events_first() {
    let mut s = Sequence::new(ticks(4.0), 1);
    s.add_notes(note(60), 1, 0, ticks(1.0));
    s.add_notes(note(62), 2, 0, ticks(1.0));
    let got: Vec<(f64, u8)> = s.events().iter().map(|e| (beats(e.beat), e.bytes[1])).collect();
    assert_eq!(got, vec![(0.0, 60), (0.0, 62), (1.0, 60), (2.0, 60), (2.0, 62), (3.0, 60)]);
}

#[test]
fn slot_that_does_not_divide_the_span_still_counts_its_last_start() {
    // ceil(4 / 1.5) = 3 slots: 0, 1.5, 3.
    let mut s = Sequence::new(ticks(4.0), 1);
    s.add_notes(note(60), 1, 0, ticks(1.5));
    assert_eq!(beat_list(&s), vec![0.0, 1.5, 3.0]);
}

#[test]
fn offset_larger_than_span_wraps() {
    let mut s = Sequence::new(ticks(4.0), 1);
    s.add_notes_with_offset(note(60), 2, 1, ticks(1.0), signed_ticks(9.0));
    // slots 1 and 3 -> 10 and 12 -> 2 and 0.
    assert_eq!(beat_list(&s), vec![0.0, 2.0]);
}

#[test]
fn skip_past_every_slot_adds_nothing() {
    let mut s = Sequence::new(ticks(4.0), 1);
    s.add_notes(note(60), 1, 4, ticks(1.0));
    assert_eq!(s.event_count(), 0);
}

#[test]
fn event_bytes_are_copied() {
    let mut s = Sequence::new(ticks(3.0), 1);
    s.add_notes(note(64), 1, 0, ticks(1.0));
    for e in s.events() {
        assert_eq!(e.bytes, vec![0x90, 64, 100]);
    }
    assert_eq!(s.beats_per_bar(), ticks(3.0));
    assert_eq!(s.bars(), 1);
}
