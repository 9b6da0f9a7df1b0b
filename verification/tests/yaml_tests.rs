use st_click::beat_values::{QuarterNote, TICKS_PER_BEAT};
use st_click::config::{apply_sequence, ConfigError, IntField, NoteValue};
use st_click::sequencer::Sequence;
use st_click::decimal::{parse_decimal_ticks, TICK_LIMIT};
use st_click::yaml_doc::{first_document, sequence_entries, sequence_names, YamlValue};

fn doc(text: &str) -> YamlValue {
    first_document(text).expect("the text parses")
}

#[test]
fn list_form_is_one_bar_of_entries() {
    let d = doc("click:\n  - note: C4\n    beat_value: 1.0\n");
    let (bars, entries) = match sequence_entries(&d, "click") {
        Ok(p) => p,
        Err(e) => panic!("unexpected {:?}", e),
    };
    assert_eq!(bars, 1);
    assert_eq!(entries.len(), 1);
    assert_eq!(entries[0].note.as_deref(), Some("C4"));
    assert_eq!(entries[0].beat_value, Some(NoteValue::Ticks(TICKS_PER_BEAT)));
    assert!(matches!(entries[0].tuplet, IntField::Absent));
    assert!(matches!(entries[0].every, IntField::Absent));
    assert!(matches!(entries[0].skip, IntField::Absent));
    assert_eq!(entries[0].offset, None);
}

#[test]
fn mapping_form_reads_bars_and_notes() {
    let d = doc(
        "click:\n  bars: 2\n  notes:\n    - note: D4\n      beat_value: 0.5\n      every: 2\n      skip: 1\n      tuplet: 3\n      offset: -0.25\n",
    );
    let (bars, entries) = match sequence_entries(&d, "click") {
        Ok(p) => p,
        Err(e) => panic!("unexpected {:?}", e),
    };
    assert_eq!(bars, 2);
    assert_eq!(entries.len(), 1);
    assert_eq!(entries[0].note.as_deref(), Some("D4"));
    assert_eq!(entries[0].beat_value, Some(NoteValue::Ticks(TICKS_PER_BEAT / 2)));
    assert!(matches!(entries[0].every, IntField::Int(2)));
    assert!(matches!(entries[0].skip, IntField::Int(1)));
    assert!(matches!(entries[0].tuplet, IntField::Int(3)));
    assert_eq!(entries[0].offset, Some(-((TICKS_PER_BEAT / 4) as i64)));
}

#[test]
fn mapping_form_bars_default_to_one() {
    let d = doc("click:\n  notes:\n    - note: C4\n      beat_value: 1.0\n    - note: D4\n      beat_value: 2.0\n");
    let (bars, entries) = match sequence_entries(&d, "click") {
        Ok(p) => p,
        Err(e) => panic!("unexpected {:?}", e),
    };
    assert_eq!(bars, 1);
    assert_eq!(entries.len(), 2);
    assert_eq!(entries[1].beat_value, Some(NoteValue::Ticks(2 * TICKS_PER_BEAT)));
}

#[test]
fn integer_beat_value_is_invalid() {
    let d = doc("click:\n  - note: C4\n    beat_value: 1\n");
    let entries = match sequence_entries(&d, "click") {
        Ok((_, entries)) => entries,
        Err(e) => panic!("unexpected {:?}", e),
    };
    assert_eq!(entries[0].beat_value, None);
    let mut s = Sequence::new(4 * QuarterNote, 1);
    assert_eq!(apply_sequence(&mut s, &entries), Err(ConfigError::BeatValueInvalid));
    assert_eq!(s.event_count(), 0);
}

#[test]
fn non_mapping_entry_is_refused() {
    let d = doc("click:\n  - 3\n");
    assert!(matches!(sequence_entries(&d, "click"), Err(ConfigError::EntryNotMapping)));
}

#[test]
fn missing_sequence_is_not_found() {
    let d = doc("click:\n  - note: C4\n    beat_value: 1.0\n");
    assert!(matches!(sequence_entries(&d, "other"), Err(ConfigError::SequenceNotFound)));
    let scalar = doc("click: 3\n");
    assert!(matches!(sequence_entries(&scalar, "click"), Err(ConfigError::SequenceNotFound)));
}

#[test]
fn yaml_configuration_plays_its_entries() {
    let d = doc("four:\n  - note: C4\n    beat_value: 1.0\n");
    let entries = match sequence_entries(&d, "four") {
        Ok((_, entries)) => entries,
        Err(e) => panic!("unexpected {:?}", e),
    };
    let mut s = Sequence::new(4 * QuarterNote, 1);
    assert_eq!(apply_sequence(&mut s, &entries), Ok(()));
    let got: Vec<u64> = s.events().iter().map(|e| e.beat / TICKS_PER_BEAT).collect();
    assert_eq!(got, vec![0, 1, 2, 3]);
    assert_eq!(s.events()[0].bytes, vec![0x90, 60, 127]);
}

#[test]
fn sequence_names_in_file_order() {
    let d = doc("b:\n  - note: C4\n    beat_value: 1.0\na:\n  notes: []\n");
    assert_eq!(sequence_names(&d), vec!["b".to_string(), "a".to_string()]);
    assert_eq!(sequence_names(&doc("- 1\n- 2\n")), Vec::<String>::new());
}

#[test]
fn malformed_yaml_gives_no_document() {
    assert!(first_document("a: [1, 2").is_none());
    assert!(first_document("").is_none());
}

#[test]
fn decimal_beats_in_ticks() {
    assert_eq!(parse_decimal_ticks(&"1.0".to_string()), Some(TICKS_PER_BEAT as i128));
    assert_eq!(parse_decimal_ticks(&"0.25".to_string()), Some((TICKS_PER_BEAT / 4) as i128));
    assert_eq!(parse_decimal_ticks(&"-0.25".to_string()), Some(-((TICKS_PER_BEAT / 4) as i128)));
    assert_eq!(parse_decimal_ticks(&"+2".to_string()), Some(2 * TICKS_PER_BEAT as i128));
    assert_eq!(parse_decimal_ticks(&".5".to_string()), Some((TICKS_PER_BEAT / 2) as i128));
    assert_eq!(parse_decimal_ticks(&"3.".to_string()), Some(3 * TICKS_PER_BEAT as i128));
    // One ten-millionth of a beat is 1.153152 ticks: rounds to one tick.
    assert_eq!(parse_decimal_ticks(&"0.0000001".to_string()), Some(1));
    assert_eq!(parse_decimal_ticks(&"-0.0000001".to_string()), Some(-1));
}

#[test]
fn exponents_and_long_digits_are_read_exactly() {
    let q = TICKS_PER_BEAT as i128;
    assert_eq!(parse_decimal_ticks(&"1e3".to_string()), Some(1000 * q));
    assert_eq!(parse_decimal_ticks(&"2.5E-1".to_string()), Some(q / 4));
    assert_eq!(parse_decimal_ticks(&"-25e-2".to_string()), Some(-q / 4));
    assert_eq!(parse_decimal_ticks(&"1E+1".to_string()), Some(10 * q));
    assert_eq!(parse_decimal_ticks(&"1e-1".to_string()), Some(q / 10));
    assert_eq!(
        parse_decimal_ticks(&"0.2500000000000000000000000000000000000000001".to_string()),
        Some(q / 4)
    );
    assert_eq!(
        parse_decimal_ticks(&"0000000000000000000000000000000000000000000000003.0".to_string()),
        Some(3 * q)
    );
    assert_eq!(parse_decimal_ticks(&"99999999999999999999".to_string()), Some("99999999999999999999".parse::<i128>().unwrap() * q));
    // One hundred-millionth of a beat is 0.115 ticks: not zero, so one tick.
    assert_eq!(parse_decimal_ticks(&"0.00000001".to_string()), Some(1));
    assert_eq!(parse_decimal_ticks(&"1e-400".to_string()), Some(1));
    assert_eq!(parse_decimal_ticks(&"-1e-99999999999999999999999999".to_string()), Some(-1));
    assert_eq!(parse_decimal_ticks(&"0e99999999999999999999999999".to_string()), Some(0));
    assert_eq!(parse_decimal_ticks(&"-0.0".to_string()), Some(0));
    // Beyond any tick count a sequence can hold: limited.
    assert_eq!(parse_decimal_ticks(&"1e400".to_string()), Some(TICK_LIMIT));
    assert_eq!(parse_decimal_ticks(&"-1234567890123456789012345678901".to_string()), Some(-TICK_LIMIT));
}

#[test]
fn non_decimal_forms_are_refused() {
    assert_eq!(parse_decimal_ticks(&".inf".to_string()), None);
    assert_eq!(parse_decimal_ticks(&".nan".to_string()), None);
    assert_eq!(parse_decimal_ticks(&"inf".to_string()), None);
    assert_eq!(parse_decimal_ticks(&"-".to_string()), None);
    assert_eq!(parse_decimal_ticks(&".".to_string()), None);
    assert_eq!(parse_decimal_ticks(&"".to_string()), None);
    assert_eq!(parse_decimal_ticks(&"1.2.3".to_string()), None);
    assert_eq!(parse_decimal_ticks(&"1e".to_string()), None);
    assert_eq!(parse_decimal_ticks(&"1e+".to_string()), None);
    assert_eq!(parse_decimal_ticks(&"e5".to_string()), None);
    assert_eq!(parse_decimal_ticks(&".e5".to_string()), None);
    assert_eq!(parse_decimal_ticks(&"1x".to_string()), None);
    assert_eq!(parse_decimal_ticks(&"½".to_string()), None);
}

#[test]
fn exponent_beat_value_and_whole_beat_offset() {
    let d = doc("click:\n  - note: C4\n    beat_value: 5e-1\n    offset: 1\n");
    let entries = match sequence_entries(&d, "click") {
        Ok((_, entries)) => entries,
        Err(e) => panic!("unexpected {:?}", e),
    };
    assert_eq!(entries[0].beat_value, Some(NoteValue::Ticks(TICKS_PER_BEAT / 2)));
    assert_eq!(entries[0].offset, Some(TICKS_PER_BEAT as i64));
}

#[test]
fn tiny_beat_value_is_one_tick() {
    let d = doc("click:\n  - note: C4\n    beat_value: 0.00000001\n");
    let entries = match sequence_entries(&d, "click") {
        Ok((_, entries)) => entries,
        Err(e) => panic!("unexpected {:?}", e),
    };
    assert_eq!(entries[0].beat_value, Some(NoteValue::Ticks(1)));
}

#[test]
fn bars_must_be_a_positive_integer() {
    for bad in ["0", "-1", "two", "1.5", "4294967296"] {
        let text = format!("click:\n  bars: {}\n  notes:\n    - note: C4\n      beat_value: 1.0\n", bad);
        let d = doc(&text);
        assert!(matches!(sequence_entries(&d, "click"), Err(ConfigError::BarsInvalid)), "bars: {}", bad);
    }
    let d = doc("click:\n  bars: 4294967295\n  notes: []\n");
    assert!(matches!(sequence_entries(&d, "click"), Ok((4294967295, _))));
}

#[test]
fn infinite_beat_value_is_unbounded() {
    for word in [".inf", "+.Inf", ".INF", "inf", "Infinity", "+INF"] {
        let text = format!("click:\n  - note: C4\n    beat_value: {}\n", word);
        let d = doc(&text);
        let entries = match sequence_entries(&d, "click") {
            Ok((_, entries)) => entries,
            Err(e) => panic!("unexpected {:?}", e),
        };
        assert_eq!(entries[0].beat_value, Some(NoteValue::Unbounded), "{}", word);
        let mut s = Sequence::new(4 * QuarterNote, 1);
        assert_eq!(apply_sequence(&mut s, &entries), Ok(()));
        assert_eq!(s.event_count(), 0);
    }
    for word in ["-.inf", ".nan", "NaN", "-inf"] {
        let text = format!("click:\n  - note: C4\n    beat_value: {}\n", word);
        let d = doc(&text);
        let entries = match sequence_entries(&d, "click") {
            Ok((_, entries)) => entries,
            Err(e) => panic!("unexpected {:?}", e),
        };
        assert_eq!(entries[0].beat_value, None, "{}", word);
    }
}
