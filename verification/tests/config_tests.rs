use st_click::beat_values::{QuarterNote, TICKS_PER_BEAT};
use st_click::config::{apply_sequence, ConfigError, IntField, NoteEntry, NoteValue};
use st_click::sequencer::Sequence;

fn entry(note: &str, beat_value: u64) -> NoteEntry {
    NoteEntry {
        note: Some(note.to_string()),
        beat_value: Some(NoteValue::Ticks(beat_value)),
        tuplet: IntField::Absent,
        every: IntField::Absent,
        skip: IntField::Absent,
        offset: None,
    }
}

fn beats(t: u64) -> f64 {
    t as f64 / TICKS_PER_BEAT as f64
}

fn bar() -> Sequence {
    Sequence::new(4 * QuarterNote, 1)
}

#[test]
fn backbeat_entries_give_downbeats_and_backbeats() {
    let mut down = entry("C-1", QuarterNote);
    down.every = IntField::Int(2);
    let mut back = entry("D#/Eb1", QuarterNote);
    back.every = IntField::Int(2);
    back.skip = IntField::Int(1);
    let mut s = bar();
    assert_eq!(apply_sequence(&mut s, &vec![down, back]), Ok(()));
    let got: Vec<(f64, u8)> = s.events().iter().map(|e| (beats(e.beat), e.bytes[1])).collect();
    assert_eq!(got, vec![(0.0, 0), (1.0, 27), (2.0, 0), (3.0, 27)]);
}

#[test]
fn septuplet_entry_gives_seven_clicks_per_two_quarters() {
    let mut e = entry("D#/Eb1", 2 * QuarterNote);
    e.tuplet = IntField::Int(7);
    let mut s = bar();
    assert_eq!(apply_sequence(&mut s, &vec![e]), Ok(()));
    // 4 beats / (4/7 beat) = 7 clicks.
    assert_eq!(s.event_count(), 7);
}

#[test]
fn offset_entry_shifts_its_clicks() {
    let mut e = entry("C4", QuarterNote);
    e.offset = Some(-(QuarterNote as i64) / 2);
    let mut s = bar();
    assert_eq!(apply_sequence(&mut s, &vec![e]), Ok(()));
    let got: Vec<f64> = s.events().iter().map(|e| beats(e.beat)).collect();
    assert_eq!(got, vec![0.5, 1.5, 2.5, 3.5]);
}

#[test]
fn zero_tuplet_adds_no_clicks() {
    let mut e = entry("C4", QuarterNote);
    e.tuplet = IntField::Int(0);
    let mut s = bar();
    assert_eq!(apply_sequence(&mut s, &vec![e]), Ok(()));
    assert_eq!(s.event_count(), 0);
}

#[test]
fn integer_fields_truncate_to_16_bits() {
    let mut e = entry("C4", QuarterNote);
    e.every = IntField::Int(65538); // 2 as u16
    let mut s = bar();
    assert_eq!(apply_sequence(&mut s, &vec![e]), Ok(()));
    assert_eq!(s.event_count(), 2);
}

#[test]
fn each_error_is_reported() {
    let cases: Vec<(NoteEntry, ConfigError)> = vec![
        (NoteEntry { beat_value: None, ..entry("C4", QuarterNote) }, ConfigError::BeatValueInvalid),
        (NoteEntry { tuplet: IntField::NotInt, ..entry("C4", QuarterNote) }, ConfigError::TupletInvalid),
        (NoteEntry { every: IntField::NotInt, ..entry("C4", QuarterNote) }, ConfigError::EveryInvalid),
        (NoteEntry { skip: IntField::NotInt, ..entry("C4", QuarterNote) }, ConfigError::SkipInvalid),
        (NoteEntry { note: None, ..entry("C4", QuarterNote) }, ConfigError::NoteInvalid),
        (entry("Q4", QuarterNote), ConfigError::UnknownNote),
        (entry("C4", 0), ConfigError::BeatValueNotPositive),
        (NoteEntry { every: IntField::Int(0), ..entry("C4", QuarterNote) }, ConfigError::EveryZero),
    ];
    for (e, want) in cases {
        let mut s = bar();
        assert_eq!(apply_sequence(&mut s, &vec![e]), Err(want));
        assert_eq!(s.event_count(), 0);
    }
}

#[test]
fn a_failing_entry_leaves_the_sequence_untouched() {
    let good = entry("C4", QuarterNote);
    let bad = entry("nonsense", QuarterNote);
    let worse = NoteEntry { note: None, ..entry("C4", QuarterNote) };
    let mut s = bar();
    assert_eq!(apply_sequence(&mut s, &vec![good, bad, worse]), Err(ConfigError::UnknownNote));
    assert_eq!(s.event_count(), 0);
}

#[test]
fn overlong_tuplet_is_one_click() {
    let e = NoteEntry { tuplet: IntField::Int(1), ..entry("C4", u64::MAX) };
    let mut s = bar();
    assert_eq!(apply_sequence(&mut s, &vec![e]), Ok(()));
    assert_eq!(s.event_count(), 1);
    assert_eq!(s.events()[0].beat, 0);
}

#[test]
fn unbounded_note_value_adds_nothing() {
    let e = NoteEntry { beat_value: Some(NoteValue::Unbounded), ..entry("C4", QuarterNote) };
    let mut s = bar();
    assert_eq!(apply_sequence(&mut s, &vec![e]), Ok(()));
    assert_eq!(s.event_count(), 0);
    let bad = NoteEntry { beat_value: Some(NoteValue::Unbounded), tuplet: IntField::NotInt, ..entry("C4", QuarterNote) };
    assert_eq!(apply_sequence(&mut s, &vec![bad]), Err(ConfigError::TupletInvalid));
    let zero_every = NoteEntry { beat_value: Some(NoteValue::Unbounded), every: IntField::Int(0), ..entry("C4", QuarterNote) };
    assert_eq!(apply_sequence(&mut s, &vec![zero_every]), Err(ConfigError::EveryZero));
}
