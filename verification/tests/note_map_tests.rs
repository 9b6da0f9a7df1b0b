use st_click::note_map::{
    a0_on, aflatminus1_on, b1_on, c0_on, c1_on, c2_on, cminus1_on, dflat1_on, get_bytes_for_note_str,
    gflat0_on, note_on,
};

#[test]
fn named_note_on_functions_carry_their_note_numbers() {
    assert_eq!(cminus1_on(), vec![0x90, 0, 127]);
    assert_eq!(aflatminus1_on(), vec![0x90, 8, 127]);
    assert_eq!(c0_on(), vec![0x90, 12, 127]);
    assert_eq!(gflat0_on(), vec![0x90, 18, 127]);
    assert_eq!(a0_on(), vec![0x90, 21, 127]);
    assert_eq!(c1_on(), vec![0x90, 24, 127]);
    assert_eq!(dflat1_on(), vec![0x90, 25, 127]);
    assert_eq!(b1_on(), vec![0x90, 35, 127]);
    assert_eq!(c2_on(), vec![0x90, 36, 127]);
}

#[test]
fn note_on_is_channel_one_full_velocity() {
    assert_eq!(note_on(60), vec![0x90, 60, 127]);
    assert_eq!(note_on(127), vec![0x90, 127, 127]);
}

#[test]
fn note_names_map_to_midi_numbers() {
    assert_eq!(get_bytes_for_note_str("C-1".to_string()), Some(vec![0x90, 0, 127]));
    assert_eq!(get_bytes_for_note_str("C#/Db-1".to_string()), Some(vec![0x90, 1, 127]));
    assert_eq!(get_bytes_for_note_str("D#/Eb-1".to_string()), Some(vec![0x90, 3, 127]));
    assert_eq!(get_bytes_for_note_str("D#/Eb1".to_string()), Some(vec![0x90, 27, 127]));
    assert_eq!(get_bytes_for_note_str("A0".to_string()), Some(vec![0x90, 21, 127]));
    assert_eq!(get_bytes_for_note_str("C4".to_string()), Some(vec![0x90, 60, 127]));
    assert_eq!(get_bytes_for_note_str("G9".to_string()), Some(vec![0x90, 127, 127]));
}

#[test]
fn unknown_note_names_give_nothing() {
    assert_eq!(get_bytes_for_note_str("H4".to_string()), None);
    assert_eq!(get_bytes_for_note_str("C#4".to_string()), None);
    assert_eq!(get_bytes_for_note_str("G#/Ab9".to_string()), None);
    assert_eq!(get_bytes_for_note_str("".to_string()), None);
}
