use st_click::beat_values::TICKS_PER_BEAT;
use st_click::note_map::get_bytes_for_note_str;
use st_click::sequencer::{OwnedMidiBytes, Scheduler, Sequence};

fn note(n: u8) -> OwnedMidiBytes {
    vec![0x90, n, 100]
}

fn ticks(b: f64) -> u64 {
    (b * TICKS_PER_BEAT as f64).round() as u64
}

#[test]
fn every_note_name_leads_back_to_its_note() {
    for n in 0u8..128 {
        let name = wmidi::Note::try_from(n).unwrap().to_str().to_string();
        assert_eq!(get_bytes_for_note_str(name), Some(vec![0x90, n, 127]));
    }
}

#[test]
fn pattern_size_is_its_firing_slot_count() {
    // 8 beats of quarter slots, every 3rd from slot 2: slots 2 and 5.
    let mut s = Sequence::new(ticks(8.0), 1);
    s.add_notes(note(60), 3, 2, ticks(1.0));
    assert_eq!(s.event_count(), 2);
    // ceil((16 - 1) / 4) = 4 eighth-note hits in a 2-bar 4/4 sequence.
    let mut s = Sequence::new(ticks(4.0), 2);
    s.add_notes(note(60), 4, 1, ticks(0.5));
    assert_eq!(s.event_count(), 4);
}

#[test]
fn tempo_changes_only_the_frame_offsets() {
    let mk = || {
        let mut s = Sequence::new(ticks(4.0), 1);
        s.add_notes(note(60), 1, 0, ticks(0.75));
        s.add_notes(note(62), 2, 1, ticks(1.0));
        Scheduler::new(s)
    };
    let mut slow = mk();
    let mut fast = mk();
    for _ in 0..5 {
        let a = slow.advance(ticks(2.5), 48_000);
        let b = fast.advance(ticks(2.5), 900);
        let ab: Vec<OwnedMidiBytes> = a.into_iter().map(|m| m.bytes).collect();
        let bb: Vec<OwnedMidiBytes> = b.into_iter().map(|m| m.bytes).collect();
        assert_eq!(ab, bb);
    }
}

#[test]
fn cycle_times_are_ordered_and_inside_the_cycle() {
    let mut s = Sequence::new(ticks(3.0), 1);
    s.add_notes(note(60), 1, 0, ticks(0.75));
    s.add_notes_with_offset(note(62), 1, 0, ticks(1.0), 1);
    let mut sch = Scheduler::new(s);
    sch.advance(ticks(1.3), 100);
    let out = sch.advance(ticks(11.0), 997);
    assert!(!out.is_empty());
    for w in out.windows(2) {
        assert!(w[0].time <= w[1].time);
    }
    assert!(out.iter().all(|m| m.time <= 997));
}

#[test]
fn adjacent_cycles_fire_what_one_long_cycle_fires() {
    let mk = || {
        let mut s = Sequence::new(ticks(2.0), 1);
        s.add_notes(note(60), 1, 0, ticks(1.0 / 3.0));
        s
    };
    let mut whole = Scheduler::new(mk());
    whole.reset_to(ticks(1.5) as i64);
    let all = whole.advance(ticks(5.0), 5000);

    let mut parts = Scheduler::new(mk());
    parts.reset_to(ticks(1.5) as i64);
    let first = parts.advance(ticks(2.0), 2000);
    let second = parts.advance(ticks(3.0), 3000);
    assert_eq!(first.len() + second.len(), all.len());
    // With one frame per thousandth of a beat the offsets line up too.
    let joined: Vec<u32> =
        first.iter().map(|m| m.time).chain(second.iter().map(|m| m.time + 2000)).collect();
    let whole_times: Vec<u32> = all.iter().map(|m| m.time).collect();
    assert_eq!(joined, whole_times);
    assert_eq!(parts.local_position(), whole.local_position());
}

#[test]
fn offset_moves_the_added_clicks_around_the_span() {
    let plain = {
        let mut s = Sequence::new(ticks(4.0), 1);
        s.add_notes_with_offset(note(60), 2, 0, ticks(1.0), 0);
        s.events().iter().map(|e| e.beat).collect::<Vec<u64>>()
    };
    assert_eq!(plain, vec![ticks(0.0), ticks(2.0)]);
    let mut late = Sequence::new(ticks(4.0), 1);
    late.add_notes_with_offset(note(60), 2, 0, ticks(1.0), ticks(2.5) as i64);
    let mut got: Vec<u64> = late.events().iter().map(|e| e.beat).collect();
    got.sort();
    let mut want: Vec<u64> = plain.iter().map(|b| (b + ticks(2.5)) % ticks(4.0)).collect();
    want.sort();
    assert_eq!(got, want);
    let mut early = Sequence::new(ticks(4.0), 1);
    early.add_notes_with_offset(note(60), 2, 0, ticks(1.0), -(ticks(1.5) as i64));
    let mut wrapped = Sequence::new(ticks(4.0), 1);
    wrapped.add_notes_with_offset(note(60), 2, 0, ticks(1.0), ticks(2.5) as i64);
    let a: Vec<u64> = early.events().iter().map(|e| e.beat).collect();
    let b: Vec<u64> = wrapped.events().iter().map(|e| e.beat).collect();
    assert_eq!(a, b);
}
