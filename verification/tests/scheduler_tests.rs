use st_click::beat_values::TICKS_PER_BEAT;
use st_click::sequencer::{beat_distance, OwnedMidiBytes, Scheduler, Sequence};

fn note(n: u8) -> OwnedMidiBytes {
    vec![0x90, n, 100]
}

fn ticks(b: f64) -> u64 {
    (b * TICKS_PER_BEAT as f64).round() as u64
}

fn signed_ticks(b: f64) -> i64 {
    (b * TICKS_PER_BEAT as f64).round() as i64
}

fn quarters() -> Sequence {
    let mut s = Sequence::new(ticks(4.0), 1);
    s.add_notes(note(60), 1, 0, ticks(1.0));
    s
}

// ----- Scheduler: basic emission -----

#[test]
fn scheduler_empty_sequence_emits_nothing() {
    let s = Sequence::new(ticks(4.0), 1);
    let mut sch = Scheduler::new(s);
    let out = sch.advance(ticks(1.0), 48_000);
    assert!(out.is_empty());
}

#[test]
fn scheduler_emits_event_at_zero_on_first_cycle() {
    let mut sch = Scheduler::new(quarters());
    let out = sch.advance(ticks(1.0), 48_000);
    assert_eq!(out.len(), 1);
    assert_eq!(out[0].time, 0);
}

#[test]
fn scheduler_event_at_cycle_boundary_belongs_to_next_cycle() {
    let mut sch = Scheduler::new(quarters());
    let out_a = sch.advance(ticks(1.0), 100);
    assert_eq!(out_a.len(), 1);
    let out_b = sch.advance(ticks(1.0), 100);
    assert_eq!(out_b.len(), 1);
}

#[test]
fn scheduler_does_not_double_emit_at_cycle_boundary() {
    let mut sch = Scheduler::new(quarters());
    let out_a = sch.advance(ticks(0.5), 50); // [0, 0.5)  fires beat 0
    let out_b = sch.advance(ticks(0.5), 50); // [0.5, 1.0)  fires nothing
    let out_c = sch.advance(ticks(0.5), 50); // [1.0, 1.5)  fires beat 1
    assert_eq!(out_a.len(), 1);
    assert_eq!(out_b.len(), 0);
    assert_eq!(out_c.len(), 1);
}

#[test]
fn scheduler_sub_cycle_time_offsets() {
    let mut sch = Scheduler::new(quarters());
    let out = sch.advance(ticks(2.0), 200);
    assert_eq!(out.len(), 2);
    assert_eq!(out[0].time, 0);
    assert_eq!(out[1].time, 100);
}

// ----- Scheduler: float precision -----

#[test]
fn scheduler_event_at_integer_beat_fires_exactly_once_across_many_cycles() {
    let mut sch = Scheduler::new(quarters());
    let mut total_emitted = 0usize;
    for i in 0..1000 {
        let cycle_len = 0.1 + (i as f64 * 1e-12);
        total_emitted += sch.advance(ticks(cycle_len), 10).len();
    }
    assert!(
        (95..=105).contains(&total_emitted),
        "expected ~100 events, got {}",
        total_emitted
    );
}

// ----- Scheduler: sequence wrap -----

#[test]
fn scheduler_wraps_at_sequence_span() {
    let mut sch = Scheduler::new(quarters());
    let out1 = sch.advance(ticks(3.5), 350);
    assert_eq!(out1.len(), 4);
    let out2 = sch.advance(ticks(1.0), 100);
    assert_eq!(out2.len(), 1);
    assert_eq!(out2[0].time, 50);
}

#[test]
fn scheduler_long_cycle_emits_multiple_passes_of_events() {
    let mut sch = Scheduler::new(quarters());
    let out = sch.advance(ticks(10.0), 1000);
    assert_eq!(out.len(), 10);
}

#[test]
fn scheduler_cycle_spanning_multiple_wraps_fires_all_events() {
    let mut sch = Scheduler::new(quarters());
    let out = sch.advance(ticks(25.0), 2500);
    assert_eq!(out.len(), 25);
}

// ----- Scheduler: continuous tempo change -----

#[test]
fn scheduler_per_beat_count_unchanged_under_stepwise_tempo() {
    let mut sch = Scheduler::new(quarters());
    let mut frames = 24_000;
    for i in 0..8 {
        let out = sch.advance(ticks(1.0), frames);
        assert_eq!(
            out.len(),
            1,
            "cycle {} should fire exactly 1 event under stepwise tempo, got {}",
            i,
            out.len()
        );
        frames = (frames as f64 * 1.05) as u32;
    }
}

#[test]
fn scheduler_tempo_change_at_cycle_boundary_no_loss() {
    let mut s = Sequence::new(ticks(4.0), 1);
    s.add_notes(note(60), 1, 0, ticks(0.25)); // 16 events
    let mut sch = Scheduler::new(s);
    let out_a = sch.advance(ticks(1.0), 1000);
    assert_eq!(out_a.len(), 4);
    let out_b = sch.advance(ticks(1.0), 100);
    assert_eq!(out_b.len(), 4);
}

// ----- Scheduler: late-connect cold start -----

#[test]
fn scheduler_reset_to_anchors_mid_sequence() {
    let mut sch = Scheduler::new(quarters());
    sch.reset_to(signed_ticks(1.5));
    let out = sch.advance(ticks(1.0), 100);
    assert_eq!(out.len(), 1);
    assert_eq!(out[0].time, 50);
}

#[test]
fn scheduler_reset_to_beat_zero_is_same_as_reset() {
    let mut sch = Scheduler::new(quarters());
    let _ = sch.advance(ticks(1.5), 150);
    sch.reset();
    let out_after_reset = sch.advance(ticks(0.5), 50);
    sch.reset_to(0);
    let out_after_reset_to = sch.advance(ticks(0.5), 50);
    assert_eq!(out_after_reset.len(), out_after_reset_to.len());
}

// ----- Further cases -----

#[test]
fn position_follows_the_cycles() {
    let mut sch = Scheduler::new(quarters());
    assert_eq!(sch.local_position(), 0);
    sch.advance(ticks(3.5), 350);
    assert_eq!(sch.local_position(), ticks(3.5));
    sch.advance(ticks(1.0), 100);
    assert_eq!(sch.local_position(), ticks(0.5));
    sch.advance(ticks(3.5), 100);
    assert_eq!(sch.local_position(), 0);
}

#[test]
fn reset_to_negative_beat_wraps_back() {
    let mut sch = Scheduler::new(quarters());
    sch.reset_to(signed_ticks(-0.5));
    assert_eq!(sch.local_position(), ticks(3.5));
    let out = sch.advance(ticks(1.0), 100);
    assert_eq!(out.len(), 1);
    assert_eq!(out[0].time, 50);
    sch.reset_to(signed_ticks(9.0));
    assert_eq!(sch.local_position(), ticks(1.0));
}

#[test]
fn zero_length_cycle_emits_nothing_and_stays() {
    let mut sch = Scheduler::new(quarters());
    sch.advance(ticks(1.5), 150);
    let out = sch.advance(0, 1000);
    assert!(out.is_empty());
    assert_eq!(sch.local_position(), ticks(1.5));
}

#[test]
fn emitted_times_round_to_nearest_frame() {
    // Three events per beat over 100 frames: 0, 33.3 -> 33, 66.7 -> 67.
    let mut s = Sequence::new(ticks(1.0), 1);
    s.add_notes(note(60), 1, 0, ticks(1.0 / 3.0));
    let mut sch = Scheduler::new(s);
    let out = sch.advance(ticks(1.0), 100);
    let times: Vec<u32> = out.iter().map(|m| m.time).collect();
    assert_eq!(times, vec![0, 33, 67]);
    // A half frame rounds up: event at beat 0.5 of a 1-beat, 3-frame cycle.
    let mut s = Sequence::new(ticks(1.0), 1);
    s.add_notes_with_offset(note(60), 1, 0, ticks(1.0), signed_ticks(0.5));
    let mut sch = Scheduler::new(s);
    let out = sch.advance(ticks(1.0), 3);
    assert_eq!(out[0].time, 2);
}

#[test]
fn emitted_bytes_follow_the_events() {
    let mut s = Sequence::new(ticks(2.0), 1);
    s.add_notes(note(60), 2, 0, ticks(1.0));
    s.add_notes(note(62), 2, 1, ticks(1.0));
    let mut sch = Scheduler::new(s);
    let out = sch.advance(ticks(4.0), 400);
    let got: Vec<(u32, u8)> = out.iter().map(|m| (m.time, m.bytes[1])).collect();
    assert_eq!(got, vec![(0, 60), (100, 62), (200, 60), (300, 62)]);
}

#[test]
fn splitting_a_cycle_fires_the_same_events() {
    let mut s = Sequence::new(ticks(3.0), 1);
    s.add_notes(note(60), 1, 0, ticks(0.5));
    let mut whole = Scheduler::new(s);
    let all: Vec<u8> = whole.advance(ticks(7.25), 725).iter().map(|m| m.bytes[1]).collect();

    let mut s = Sequence::new(ticks(3.0), 1);
    s.add_notes(note(60), 1, 0, ticks(0.5));
    let mut parts = Scheduler::new(s);
    let mut got = parts.advance(ticks(2.5), 250);
    got.extend(parts.advance(ticks(4.75), 475));
    assert_eq!(got.len(), all.len());
    assert_eq!(got.len(), 15);
    assert_eq!(parts.local_position(), whole.local_position());
}

#[test]
fn sequence_accessor_returns_the_played_sequence() {
    let sch = Scheduler::new(quarters());
    assert_eq!(sch.sequence().event_count(), 4);
    assert_eq!(sch.sequence().span_beats(), ticks(4.0));
}

#[test]
fn beat_distance_goes_forward_around_the_span() {
    let span = ticks(4.0);
    assert_eq!(beat_distance(signed_ticks(1.0), signed_ticks(3.0), span), ticks(2.0));
    assert_eq!(beat_distance(signed_ticks(3.0), signed_ticks(1.0), span), ticks(2.0));
    assert_eq!(beat_distance(signed_ticks(3.5), signed_ticks(0.5), span), ticks(1.0));
    assert_eq!(beat_distance(signed_ticks(-1.0), signed_ticks(5.0), span), ticks(2.0));
    assert_eq!(beat_distance(signed_ticks(2.0), signed_ticks(2.0), span), 0);
}
