use st_click::beat_values::TICKS_PER_BEAT;
use st_click::sequencer::{cycle_frames, SequencerCommand, SequencerState};

const Q: i64 = TICKS_PER_BEAT as i64;

#[test]
fn switch_waits_for_the_bar_line() {
    let mut st = SequencerState::new("backbeat".to_string(), 4 * TICKS_PER_BEAT);
    st.handle_command(SequencerCommand::SwitchTo("quarters".to_string()));
    assert_eq!(st.pending_switch, Some("quarters".to_string()));

    // Beats 1..3: counted, no switch.
    for b in 0..3 {
        let a = st.end_cycle(b * Q + Q / 2, (b + 1) * Q + Q / 2, 4 * TICKS_PER_BEAT);
        assert_eq!(a.beat_count, Some((b + 1) as u64));
        assert!(!a.rebuild);
        assert_eq!(st.sequence_name, "backbeat");
    }
    // Beat 4 ends the bar: the switch lands.
    let a = st.end_cycle(3 * Q + Q / 2, 4 * Q + Q / 2, 4 * TICKS_PER_BEAT);
    assert_eq!(a.beat_count, Some(4));
    assert!(a.rebuild);
    assert_eq!(st.sequence_name, "quarters");
    assert_eq!(st.pending_switch, None);
}

#[test]
fn switch_to_the_playing_sequence_is_ignored() {
    let mut st = SequencerState::new("backbeat".to_string(), 4 * TICKS_PER_BEAT);
    st.handle_command(SequencerCommand::SwitchTo("backbeat".to_string()));
    assert_eq!(st.pending_switch, None);
}

#[test]
fn cycle_inside_a_beat_counts_nothing() {
    let mut st = SequencerState::new("x".to_string(), 4 * TICKS_PER_BEAT);
    let a = st.end_cycle(Q / 4, Q / 2, 4 * TICKS_PER_BEAT);
    assert_eq!(a.cycle_beat_len, (Q / 4) as u64);
    assert_eq!(a.beat_count, None);
    assert!(!a.rebuild);
    assert_eq!(st.beat_counter, 0);
}

#[test]
fn meter_change_applies_at_the_bar_line() {
    let mut st = SequencerState::new("x".to_string(), 4 * TICKS_PER_BEAT);
    let a = st.end_cycle(0, 3 * Q, 3 * TICKS_PER_BEAT);
    assert_eq!(a.beat_count, Some(3));
    assert!(!a.rebuild);
    assert_eq!(st.beats_per_bar, 4 * TICKS_PER_BEAT);
    let a = st.end_cycle(3 * Q, 4 * Q, 3 * TICKS_PER_BEAT);
    assert!(a.rebuild);
    assert_eq!(st.beats_per_bar, 3 * TICKS_PER_BEAT);
}

#[test]
fn negative_positions_count_beat_lines() {
    let mut st = SequencerState::new("x".to_string(), 4 * TICKS_PER_BEAT);
    let a = st.end_cycle(-Q / 2, Q / 2, 4 * TICKS_PER_BEAT);
    assert_eq!(a.beat_count, Some(1));
    assert_eq!(a.cycle_beat_len, Q as u64);
}

#[test]
fn half_beat_bars_land_on_whole_multiples() {
    // 3.5 beats per bar: the bar line falls every 7 beats.
    let mut st = SequencerState::new("x".to_string(), 7 * TICKS_PER_BEAT / 2);
    st.handle_command(SequencerCommand::SwitchTo("y".to_string()));
    let a = st.end_cycle(0, 6 * Q, 7 * TICKS_PER_BEAT / 2);
    assert!(!a.rebuild);
    let a = st.end_cycle(6 * Q, 7 * Q, 7 * TICKS_PER_BEAT / 2);
    assert!(a.rebuild);
    assert_eq!(st.sequence_name, "y");
}

#[test]
fn selecting_the_playing_sequence_sends_nothing() {
    let active = "backbeat".to_string();
    assert!(SequencerCommand::for_selection("backbeat".to_string(), &active).is_none());
    match SequencerCommand::for_selection("quarters".to_string(), &active) {
        Some(SequencerCommand::SwitchTo(name)) => assert_eq!(name, "quarters"),
        None => panic!("expected a switch"),
    }
}

#[test]
fn last_of_several_switches_lands_on_the_bar_line() {
    let mut st = SequencerState::new("a".to_string(), 2 * TICKS_PER_BEAT);
    st.handle_command(SequencerCommand::SwitchTo("b".to_string()));
    let r = st.end_cycle(Q / 2, Q + Q / 2, 2 * TICKS_PER_BEAT);
    assert_eq!(r.beat_count, Some(1));
    assert!(!r.rebuild);
    st.handle_command(SequencerCommand::SwitchTo("c".to_string()));
    // A request for the sequence playing leaves the waiting one alone.
    st.handle_command(SequencerCommand::SwitchTo("a".to_string()));
    assert_eq!(st.pending_switch, Some("c".to_string()));
    assert_eq!(st.sequence_name, "a");
    let r = st.end_cycle(Q + Q / 2, 2 * Q + Q / 2, 2 * TICKS_PER_BEAT);
    assert_eq!(r.beat_count, Some(2));
    assert!(r.rebuild);
    assert_eq!(st.sequence_name, "c");
    assert_eq!(st.pending_switch, None);
}

#[test]
fn nothing_rebuilds_while_nothing_changes() {
    let mut st = SequencerState::new("a".to_string(), 2 * TICKS_PER_BEAT);
    for b in 0..6 {
        st.handle_command(SequencerCommand::SwitchTo("a".to_string()));
        let r = st.end_cycle(b * Q, (b + 1) * Q, 2 * TICKS_PER_BEAT);
        assert!(!r.rebuild);
    }
    assert_eq!(st.sequence_name, "a");
    assert_eq!(st.beats_per_bar, 2 * TICKS_PER_BEAT);
    assert_eq!(st.pending_switch, None);
}

#[test]
fn beat_reports_count_every_beat_line_and_go_up() {
    let mut st = SequencerState::new("a".to_string(), 4 * TICKS_PER_BEAT);
    let cycles = [(0, Q / 3), (Q / 3, 2 * Q), (2 * Q, 2 * Q), (2 * Q, 5 * Q + 1), (5 * Q + 1, 5 * Q + 2)];
    let mut reports = Vec::new();
    for (p, c) in cycles {
        if let Some(n) = st.end_cycle(p, c, 4 * TICKS_PER_BEAT).beat_count {
            reports.push(n);
        }
    }
    assert_eq!(reports, vec![2, 5]);
    assert_eq!(st.beat_counter, 5);
}

#[test]
fn cycle_frames_skips_stopped_or_rewound_transport() {
    assert_eq!(cycle_frames(100, 356, 22050), Some(256));
    assert_eq!(cycle_frames(100, 100, 22050), None);
    assert_eq!(cycle_frames(500, 100, 22050), None);
    assert_eq!(cycle_frames(100, 356, 0), None);
    assert_eq!(cycle_frames(0, (1u64 << 32) + 7, 1), Some(7));
}
