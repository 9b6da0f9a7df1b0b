//! Click sequences in beat coordinates and the per-cycle scheduler that
//! plays them.
//!
//! A [`Sequence`] stores MIDI events at beat positions (in ticks from the
//! start of the sequence). Its size depends on the note pattern only,
//! never on tempo or on how long the transport has been running.
//!
//! A [`Scheduler`] walks a sequence cycle by cycle: each call of
//! [`Scheduler::advance`] covers the half-open beat interval that starts
//! where the previous one ended, wraps around the sequence as often as
//! needed, and reports every event inside it with its frame offset in
//! the cycle.

use vstd::prelude::*;
use crate::beat_values::{Ticks, TICKS_PER_BEAT};
use crate::timeline::{
    beats_sorted, beats_within, cursor_at, cycle_events, insert_beats, insert_sorted, occurrences,
    pass_occurrences, pattern_beats, pattern_len, round_time, slot_beat, slot_count, slot_fires,
    timed, law_pattern_len, lemma_insert_beats_len, lemma_insert_pos_unique,
    lemma_insert_sorted_keeps, lemma_occurrences_empty, lemma_pass_none, lemma_pass_tail_out,
    lemma_pass_take_step, lemma_timed_add, lemma_timed_push, beat_events, law_insert_beats_multiset,
    law_offset_shifts_pattern,
};

verus! {

/// The bytes of one MIDI message.
pub type OwnedMidiBytes = Vec<u8>;

/// A MIDI message to send `time` frames into the current process cycle.
#[derive(Debug, Clone)]
pub struct OwnedMidi {
    pub time: u32,
    pub bytes: OwnedMidiBytes,
}

/// A MIDI message at a fixed beat position inside a sequence.
#[derive(Debug, Clone)]
pub struct ScheduledEvent {
    /// Position in `[0, span)`, in ticks.
    pub beat: Ticks,
    pub bytes: OwnedMidiBytes,
}

/// An event as the model sees it: `(beat, bytes)`.
pub open spec fn event_view(e: ScheduledEvent) -> (int, Seq<u8>) {
    (e.beat as int, e.bytes@)
}

pub open spec fn events_view(es: Seq<ScheduledEvent>) -> Seq<(int, Seq<u8>)> {
    es.map_values(|e: ScheduledEvent| event_view(e))
}

/// A message as the model sees it: `(time, bytes)`.
pub open spec fn midi_view(ms: Seq<OwnedMidi>) -> Seq<(int, Seq<u8>)> {
    ms.map_values(|m: OwnedMidi| (m.time as int, m.bytes@))
}

/// `x` reduced into `[0, span)` (Euclidean remainder).
fn rem_euclid_ticks(x: i128, span: Ticks) -> (r: Ticks)
    requires
        span > 0,
        x > i128::MIN,
    ensures
        r as int == x as int % span as int,
{
    if x >= 0 {
        let m: u128 = (x as u128) % (span as u128);
        m as u64
    } else {
        let y: u128 = (0 - x) as u128;
        let m: u128 = y % (span as u128);
        proof {
            let s = span as int;
            vstd::arithmetic::div_mod::lemma_fundamental_div_mod(y as int, s);
            let q = y as int / s;
            if m == 0 {
                assert(x as int == (-q) * s + 0) by (nonlinear_arith)
                    requires
                        y as int == s * q + m as int,
                        m == 0,
                        x as int == -(y as int),
                ;
                vstd::arithmetic::div_mod::lemma_fundamental_div_mod_converse(x as int, s, -q, 0);
            } else {
                assert(x as int == (-q - 1) * s + (s - m as int)) by (nonlinear_arith)
                    requires
                        y as int == s * q + m as int,
                        x as int == -(y as int),
                ;
                vstd::arithmetic::div_mod::lemma_fundamental_div_mod_converse(x as int, s, -q - 1, s - m as int);
            }
        }
        if m == 0 {
            0
        } else {
            (span as u128 - m) as u64
        }
    }
}

/// There are at most `span` slots.
proof fn lemma_slot_count_bound(span: int, slot: int)
    requires
        span >= 1,
        slot >= 1,
    ensures
        0 <= slot_count(span, slot) <= span,
{
    assert((span + slot - 1) / slot <= span) by (nonlinear_arith)
        requires
            span >= 1,
            slot >= 1,
    ;
    assert((span + slot - 1) / slot >= 0) by (nonlinear_arith)
        requires
            span >= 1,
            slot >= 1,
    ;
}

/// Every counted slot starts inside the span.
proof fn lemma_slot_start_in_span(span: int, slot: int, k: int)
    requires
        span >= 1,
        slot >= 1,
        0 <= k < slot_count(span, slot),
    ensures
        0 <= k * slot < span,
{
    let a = span + slot - 1;
    let q = a / slot;
    vstd::arithmetic::div_mod::lemma_fundamental_div_mod(a, slot);
    assert(k * slot < span) by (nonlinear_arith)
        requires
            a == slot * q + a % slot,
            0 <= a % slot < slot,
            k < q,
            k >= 0,
            a == span + slot - 1,
            slot >= 1,
    ;
    assert(k * slot >= 0) by (nonlinear_arith)
        requires
            k >= 0,
            slot >= 1,
    ;
}

/// A click sequence: a span of beats and the MIDI events that fire in it.
#[derive(Debug, Clone)]
pub struct Sequence {
    beats_per_bar: Ticks,
    bars: u32,
    events: Vec<ScheduledEvent>,
}

impl Sequence {
    /// Ticks in one bar.
    pub closed spec fn spec_beats_per_bar(&self) -> int {
        self.beats_per_bar as int
    }

    /// Number of bars.
    pub closed spec fn spec_bars(&self) -> int {
        self.bars as int
    }

    /// The wrap point of the sequence: `beats_per_bar * bars` ticks.
    pub open spec fn spec_span(&self) -> int {
        self.spec_beats_per_bar() * self.spec_bars()
    }

    /// The events, in the order in which they fire.
    pub closed spec fn event_seq(&self) -> Seq<(int, Seq<u8>)> {
        events_view(self.events@)
    }

    /// A usable sequence: a positive span that fits in [`Ticks`], and
    /// events sorted by beat inside it.
    pub open spec fn wf(&self) -> bool {
        &&& self.spec_beats_per_bar() > 0
        &&& self.spec_bars() >= 1
        &&& self.spec_span() <= u64::MAX
        &&& beats_sorted(self.event_seq())
        &&& beats_within(self.event_seq(), self.spec_span())
    }

    /// An empty sequence of `bars` bars of `beats_per_bar` ticks.
    pub fn new(beats_per_bar: Ticks, bars: u32) -> (s: Sequence)
        requires
            bars >= 1,
            beats_per_bar > 0,
            beats_per_bar * bars <= u64::MAX,
        ensures
            s.spec_beats_per_bar() == beats_per_bar,
            s.spec_bars() == bars,
            s.event_seq() == Seq::<(int, Seq<u8>)>::empty(),
            s.wf(),
    {
        let s = Sequence { beats_per_bar, bars, events: Vec::new() };
        assert(s.event_seq() =~= Seq::<(int, Seq<u8>)>::empty());
        s
    }

    /// Total span of the sequence in ticks; the wrap point.
    pub fn span_beats(&self) -> (r: Ticks)
        requires
            self.spec_span() <= u64::MAX,
        ensures
            r == self.spec_span(),
    {
        self.beats_per_bar * (self.bars as u64)
    }

    /// The events, sorted by beat.
    pub fn events(&self) -> (r: &[ScheduledEvent])
        ensures
            events_view(r@) == self.event_seq(),
    {
        self.events.as_slice()
    }

    /// Ticks in one bar.
    pub fn beats_per_bar(&self) -> (r: Ticks)
        ensures
            r == self.spec_beats_per_bar(),
    {
        self.beats_per_bar
    }

    /// Number of bars.
    pub fn bars(&self) -> (r: u32)
        ensures
            r == self.spec_bars(),
    {
        self.bars
    }

    /// Number of events in the sequence.
    pub fn event_count(&self) -> (r: usize)
        ensures
            r == self.event_seq().len(),
    {
        self.events.len()
    }

    /// Add a repeating pattern of events without offset; the same as
    /// `add_notes_with_offset(bytes, every_n, skip_n, beat_value, 0)`.
    pub fn add_notes(&mut self, bytes: OwnedMidiBytes, every_n: u16, skip_n: u16, beat_value: Ticks)
        requires
            old(self).wf(),
            beat_value > 0,
            every_n >= 1,
        ensures
            final(self).wf(),
            final(self).spec_beats_per_bar() == old(self).spec_beats_per_bar(),
            final(self).spec_bars() == old(self).spec_bars(),
            final(self).event_seq() == insert_beats(
                old(self).event_seq(),
                pattern_beats(
                    old(self).spec_span(),
                    every_n as int,
                    skip_n as int,
                    beat_value as int,
                    0,
                    slot_count(old(self).spec_span(), beat_value as int) as nat,
                ),
                bytes@,
            ),
            final(self).event_seq().len() == old(self).event_seq().len() + pattern_len(
                every_n as int,
                skip_n as int,
                slot_count(old(self).spec_span(), beat_value as int),
            ),
    {
        self.add_notes_with_offset(bytes, every_n, skip_n, beat_value, 0)
    }

    /// Add events firing every `every_n` slots after skipping the first
    /// `skip_n` slots, where a slot is `beat_value` ticks and the slots
    /// that start inside the span are considered. Every event is shifted
    /// by `offset_beats` ticks (positive delays, negative anticipates)
    /// and wrapped into the span. The new events are merged into the
    /// sorted list after any event at the same beat.
    pub fn add_notes_with_offset(
        &mut self,
        bytes: OwnedMidiBytes,
        every_n: u16,
        skip_n: u16,
        beat_value: Ticks,
        offset_beats: i64,
    )
        requires
            old(self).wf(),
            beat_value > 0,
            every_n >= 1,
        ensures
            final(self).wf(),
            final(self).spec_beats_per_bar() == old(self).spec_beats_per_bar(),
            final(self).spec_bars() == old(self).spec_bars(),
            final(self).event_seq() == insert_beats(
                old(self).event_seq(),
                pattern_beats(
                    old(self).spec_span(),
                    every_n as int,
                    skip_n as int,
                    beat_value as int,
                    offset_beats as int,
                    slot_count(old(self).spec_span(), beat_value as int) as nat,
                ),
                bytes@,
            ),
            final(self).event_seq().len() == old(self).event_seq().len() + pattern_len(
                every_n as int,
                skip_n as int,
                slot_count(old(self).spec_span(), beat_value as int),
            ),
    {
        let span = self.span_beats();
        let ghost old_events = self.event_seq();
        let ghost sp = span as int;
        let ghost bv = beat_value as int;
        proof {
            let a = self.spec_beats_per_bar();
            let b = self.spec_bars();
            assert(a * b >= 1) by (nonlinear_arith)
                requires
                    a >= 1,
                    b >= 1,
            ;
            lemma_slot_count_bound(sp, bv);
        }
        let total_u128: u128 = (span as u128 + beat_value as u128 - 1) / (beat_value as u128);
        let total_slots: u64 = total_u128 as u64;
        assert(total_slots as int == slot_count(sp, bv));
        let mut k: u64 = 0;
        while k < total_slots
            invariant
                self.wf(),
                self.spec_beats_per_bar() == old(self).spec_beats_per_bar(),
                self.spec_bars() == old(self).spec_bars(),
                span as int == self.spec_span(),
                total_slots as int == slot_count(sp, bv),
                total_slots <= span,
                k <= total_slots,
                sp == span as int,
                bv == beat_value as int,
                beat_value > 0,
                every_n >= 1,
                self.event_seq() == insert_beats(
                    old_events,
                    pattern_beats(sp, every_n as int, skip_n as int, bv, offset_beats as int, k as nat),
                    bytes@,
                ),
            decreases total_slots - k,
        {
            let ghost prev_beats = pattern_beats(sp, every_n as int, skip_n as int, bv, offset_beats as int, k as nat);
            if k >= skip_n as u64 && (k - skip_n as u64) % (every_n as u64) == 0 {
                proof {
                    lemma_slot_start_in_span(sp, bv, k as int);
                }
                let raw: i128 = (k as i128) * (beat_value as i128) + (offset_beats as i128);
                let beat = rem_euclid_ticks(raw, span);
                proof {
                    assert(slot_fires(k as int, every_n as int, skip_n as int));
                    assert(beat as int == slot_beat(k as int, bv, offset_beats as int, sp));
                }
                self.insert_event(ScheduledEvent { beat, bytes: clone_bytes(&bytes) });
                proof {
                    let nb = pattern_beats(sp, every_n as int, skip_n as int, bv, offset_beats as int, (k + 1) as nat);
                    assert(nb == prev_beats.push(beat as int));
                    assert(nb.drop_last() =~= prev_beats);
                }
            } else {
                proof {
                    assert(!slot_fires(k as int, every_n as int, skip_n as int));
                }
            }
            k = k + 1;
        }
        proof {
            let pb = pattern_beats(sp, every_n as int, skip_n as int, bv, offset_beats as int, total_slots as nat);
            lemma_insert_beats_len(old_events, pb, bytes@);
            lemma_slot_count_bound(sp, bv);
            law_pattern_len(sp, every_n as int, skip_n as int, bv, offset_beats as int, total_slots as nat);
        }
    }

    /// Insert `e` after every event whose beat is not later than its own.
    fn insert_event(&mut self, e: ScheduledEvent)
        requires
            old(self).wf(),
            e.beat < old(self).spec_span(),
        ensures
            final(self).wf(),
            final(self).spec_beats_per_bar() == old(self).spec_beats_per_bar(),
            final(self).spec_bars() == old(self).spec_bars(),
            final(self).event_seq() == insert_sorted(old(self).event_seq(), event_view(e)),
    {
        let ghost es = self.event_seq();
        let mut i: usize = 0;
        while i < self.events.len()
            invariant
                i <= self.events.len(),
                es == self.event_seq(),
                forall|j: int| 0 <= j < i ==> #[trigger] es[j].0 <= e.beat,
            ensures
                i <= self.events.len(),
                i < self.events.len() ==> es[i as int].0 > e.beat,
            decreases self.events.len() - i,
        {
            if self.events[i].beat > e.beat {
                break;
            }
            i = i + 1;
        }
        proof {
            lemma_insert_pos_unique(es, e.beat as int, i as int);
            lemma_insert_sorted_keeps(es, event_view(e), self.spec_span());
        }
        let ghost ev = event_view(e);
        self.events.insert(i, e);
        proof {
            assert(self.event_seq() =~= es.insert(i as int, ev));
        }
    }
}


/// `x * frames / len` rounded to the nearest frame, halves up.
fn round_frame(x: u64, len: u64, frames: u32) -> (t: u32)
    requires
        x < len,
    ensures
        t as int == round_time(x as int, len as int, frames as int),
        t <= frames,
{
    proof {
        assert((x as int) * (frames as int) <= (len as int) * (frames as int)) by (nonlinear_arith)
            requires
                x < len,
        ;
        assert((len as int) * (frames as int) <= 0x1_0000_0000_0000_0000 * 0x1_0000_0000) by (nonlinear_arith)
            requires
                len <= u64::MAX,
                frames <= u32::MAX,
        ;
    }
    let xf: u128 = (x as u128) * (frames as u128);
    let num: u128 = 2 * xf + (len as u128);
    let den: u128 = 2 * (len as u128);
    let t: u128 = num / den;
    assert(num as int == 2 * (x as int) * (frames as int) + len as int) by (nonlinear_arith)
        requires
            xf as int == (x as int) * (frames as int),
            num as int == 2 * (xf as int) + len as int,
    ;
    proof {
        let n = num as int;
        let d = den as int;
        vstd::arithmetic::div_mod::lemma_fundamental_div_mod(n, d);
        assert(t as int <= frames as int) by (nonlinear_arith)
            requires
                n == d * (t as int) + n % d,
                0 <= n % d,
                n == 2 * (x as int) * (frames as int) + len as int,
                d == 2 * (len as int),
                x < len,
                frames >= 0,
        ;
    }
    t as u32
}

/// Per-cycle scheduler: keeps a cursor into a [`Sequence`] and emits the
/// events whose beats fall in each cycle's half-open interval
/// `[previous end, previous end + cycle length)`, wrapping around the
/// sequence as often as the cycle requires.
///
/// Every cycle owns its start, never its end: an event exactly at the
/// boundary between two cycles fires in the second one, so every event
/// fires exactly once.
#[derive(Debug)]
pub struct Scheduler {
    sequence: Sequence,
    /// Index of the next event not yet emitted.
    next_event_index: usize,
    /// The local beat (in `[0, span)`) at which the previous cycle ended.
    last_local_end: Ticks,
}

impl Scheduler {
    /// The sequence being played.
    pub closed spec fn spec_sequence(&self) -> Sequence {
        self.sequence
    }

    /// The local beat in `[0, span)` at which the next cycle starts.
    pub closed spec fn position(&self) -> int {
        self.last_local_end as int
    }

    /// The sequence is usable, the position lies inside it and the
    /// cursor sits at the first event at or after the position.
    pub closed spec fn wf(&self) -> bool {
        &&& self.sequence.wf()
        &&& self.last_local_end < self.sequence.spec_span()
        &&& cursor_at(self.sequence.event_seq(), self.next_event_index as int, self.last_local_end as int)
    }

    /// A scheduler at the start of `sequence`.
    pub fn new(sequence: Sequence) -> (s: Scheduler)
        requires
            sequence.wf(),
        ensures
            s.wf(),
            s.spec_sequence() == sequence,
            s.position() == 0,
    {
        proof {
            let a = sequence.spec_beats_per_bar();
            let b = sequence.spec_bars();
            assert(a * b >= 1) by (nonlinear_arith)
                requires
                    a >= 1,
                    b >= 1,
            ;
        }
        Scheduler { sequence, next_event_index: 0, last_local_end: 0 }
    }

    /// Reset to the start of the sequence.
    pub fn reset(&mut self)
        requires
            old(self).wf(),
        ensures
            final(self).wf(),
            final(self).spec_sequence() == old(self).spec_sequence(),
            final(self).position() == 0,
    {
        self.reset_to(0);
        proof {
            vstd::arithmetic::div_mod::lemma_fundamental_div_mod_converse(0, self.sequence.spec_span(), 0, 0);
        }
    }

    /// Move to `local_beat` (in ticks), reduced into the sequence span;
    /// the next cycle starts there.
    pub fn reset_to(&mut self, local_beat: i64)
        requires
            old(self).wf(),
        ensures
            final(self).wf(),
            final(self).spec_sequence() == old(self).spec_sequence(),
            final(self).position() == local_beat as int % old(self).spec_sequence().spec_span(),
    {
        let span = self.sequence.span_beats();
        let anchor = rem_euclid_ticks(local_beat as i128, span);
        self.last_local_end = anchor;
        self.next_event_index = 0;
        self.advance_cursor_to(anchor);
    }

    /// The sequence being played.
    pub fn sequence(&self) -> (r: &Sequence)
        ensures
            *r == self.spec_sequence(),
    {
        &self.sequence
    }

    /// The local beat at which the next cycle starts.
    pub fn local_position(&self) -> (r: Ticks)
        ensures
            r == self.position(),
    {
        self.last_local_end
    }

    /// Advance over a cycle of `cycle_beat_len` ticks that lasts
    /// `cycle_frame_len` frames. Returns every event whose beat falls in
    /// `[position, position + cycle_beat_len)` taken around the sequence
    /// (as many passes as the cycle covers), in firing order, each with
    /// `time` set to its frame offset in the cycle (rounded to the
    /// nearest frame). The next cycle starts where this one ends.
    pub fn advance(&mut self, cycle_beat_len: Ticks, cycle_frame_len: u32) -> (r: Vec<OwnedMidi>)
        requires
            old(self).wf(),
        ensures
            final(self).wf(),
            final(self).spec_sequence() == old(self).spec_sequence(),
            final(self).position() == (old(self).position() + cycle_beat_len)
                % old(self).spec_sequence().spec_span(),
            midi_view(r@) == cycle_events(
                old(self).spec_sequence().event_seq(),
                old(self).spec_sequence().spec_span(),
                old(self).position(),
                cycle_beat_len as int,
                cycle_frame_len as int,
            ),
    {
        let ghost es = self.sequence.event_seq();
        let ghost sp = self.sequence.spec_span();
        let ghost start = self.last_local_end as int;
        let ghost len_i = cycle_beat_len as int;
        let ghost fr = cycle_frame_len as int;
        if cycle_beat_len == 0 {
            proof {
                lemma_occurrences_empty(es, sp, -start, 0);
                assert(timed(Seq::<(int, Seq<u8>)>::empty(), 0, fr) =~= Seq::<(int, Seq<u8>)>::empty());
                vstd::arithmetic::div_mod::lemma_fundamental_div_mod_converse(start, sp, 0, start);
            }
            let r: Vec<OwnedMidi> = Vec::new();
            assert(midi_view(r@) =~= Seq::<(int, Seq<u8>)>::empty());
            return r;
        }
        let span = self.sequence.span_beats();
        if self.sequence.events.len() == 0 {
            self.last_local_end = rem_euclid_ticks(self.last_local_end as i128 + cycle_beat_len as i128, span);
            proof {
                lemma_occurrences_empty(es, sp, -start, len_i);
                assert(timed(Seq::<(int, Seq<u8>)>::empty(), len_i, fr) =~= Seq::<(int, Seq<u8>)>::empty());
            }
            let r: Vec<OwnedMidi> = Vec::new();
            assert(midi_view(r@) =~= Seq::<(int, Seq<u8>)>::empty());
            return r;
        }
        let ghost target = timed(occurrences(es, sp, -start, len_i), len_i, fr);
        let len = cycle_beat_len;
        let frames = cycle_frame_len;
        let n = self.sequence.events.len();
        let mut local_start: u64 = self.last_local_end;
        let mut consumed: u64 = 0;
        let mut ret: Vec<OwnedMidi> = Vec::new();
        let ghost mut passes: int = 0;
        proof {
            assert(midi_view(ret@) =~= Seq::<(int, Seq<u8>)>::empty());
            assert(Seq::<(int, Seq<u8>)>::empty() + target =~= target);
        }
        loop
            invariant
                self.sequence == old(self).sequence,
                self.sequence.wf(),
                es == self.sequence.event_seq(),
                sp == self.sequence.spec_span(),
                span as int == sp,
                n == es.len(),
                n > 0,
                len as int == len_i,
                frames as int == fr,
                len_i == cycle_beat_len as int,
                fr == cycle_frame_len as int,
                len > 0,
                start == old(self).last_local_end as int,
                0 <= start < sp,
                target == timed(occurrences(es, sp, -start, len_i), len_i, fr),
                consumed < len,
                local_start < span,
                consumed == 0 ==> local_start as int == start,
                consumed == 0 || local_start == 0,
                passes >= 0,
                consumed as int - local_start as int + start == passes * sp,
                cursor_at(es, self.next_event_index as int, local_start as int),
                midi_view(ret@) + timed(occurrences(es, sp, consumed as int - local_start as int, len_i), len_i, fr)
                    == target,
            decreases len - consumed,
        {
            let remaining = len - consumed;
            let until_wrap = span - local_start;
            let seg = if remaining < until_wrap { remaining } else { until_wrap };
            let seg_end = local_start + seg;
            self.advance_cursor_to(local_start);
            let ghost ret0 = midi_view(ret@);
            let ghost o = consumed as int - local_start as int;
            let ghost c0 = self.next_event_index as int;
            proof {
                assert forall|j: int| 0 <= j < c0 implies !(0 <= o + #[trigger] es.take(c0)[j].0 < len_i) by {
                    assert(es.take(c0)[j] == es[j]);
                }
                lemma_pass_none(es.take(c0), o, len_i);
                assert(timed(Seq::<(int, Seq<u8>)>::empty(), len_i, fr) =~= Seq::<(int, Seq<u8>)>::empty());
                assert(midi_view(ret@) =~= ret0 + timed(pass_occurrences(es.take(c0), o, len_i), len_i, fr));
            }
            while self.next_event_index < self.sequence.events.len()
                invariant
                    self.sequence == old(self).sequence,
                    self.sequence.wf(),
                    es == self.sequence.event_seq(),
                    n == self.sequence.events@.len(),
                    n == es.len(),
                    len as int == len_i,
                    frames as int == fr,
                    consumed < len,
                    remaining == len - consumed,
                    local_start < span,
                    span as int == sp,
                    until_wrap == span - local_start,
                    seg == (if remaining < until_wrap { remaining } else { until_wrap }),
                    seg_end == local_start + seg,
                    o == consumed as int - local_start as int,
                    consumed == 0 || local_start == 0,
                    c0 <= self.next_event_index <= n,
                    forall|j: int| 0 <= j < self.next_event_index ==> #[trigger] es[j].0 < seg_end,
                    midi_view(ret@) == ret0 + timed(
                        pass_occurrences(es.take(self.next_event_index as int), o, len_i),
                        len_i,
                        fr,
                    ),
                ensures
                    self.next_event_index < n ==> es[self.next_event_index as int].0 >= seg_end,
                decreases n - self.next_event_index,
            {
                let i = self.next_event_index;
                let beat = self.sequence.events[i].beat;
                proof {
                    assert(es[i as int] == event_view(self.sequence.events@[i as int]));
                }
                if beat >= seg_end {
                    break;
                }
                let ghost prev = midi_view(ret@);
                proof {
                    lemma_pass_take_step(es, i as int, o, len_i);
                }
                if beat >= local_start {
                    let elapsed: u64 = consumed + (beat - local_start);
                    let time = round_frame(elapsed, len, frames);
                    let bytes = clone_bytes(&self.sequence.events[i].bytes);
                    ret.push(OwnedMidi { time, bytes });
                    proof {
                        assert(0 <= o + es[i as int].0 < len_i);
                        lemma_timed_push(pass_occurrences(es.take(i as int), o, len_i), (o + es[i as int].0, es[i as int].1), len_i, fr);
                        assert(midi_view(ret@) =~= prev.push((time as int, bytes@)));
                    }
                } else {
                    proof {
                        assert(!(0 <= o + es[i as int].0 < len_i));
                    }
                }
                self.next_event_index = i + 1;
            }
            proof {
                let c = self.next_event_index as int;
                assert forall|j: int| c <= j < n implies !(0 <= o + #[trigger] es[j].0 < len_i) by {
                    assert(es[c].0 <= es[j].0);
                }
                lemma_pass_tail_out(es, c, o, len_i);
                lemma_timed_add(pass_occurrences(es, o, len_i), occurrences(es, sp, o + sp, len_i), len_i, fr);
                assert(midi_view(ret@) + timed(occurrences(es, sp, o + sp, len_i), len_i, fr) == target);
            }
            consumed = consumed + seg;
            if consumed >= len {
                proof {
                    lemma_occurrences_empty(es, sp, o + sp, 0);
                    assert(occurrences(es, sp, o + sp, len_i) =~= Seq::<(int, Seq<u8>)>::empty());
                    assert(timed(Seq::<(int, Seq<u8>)>::empty(), len_i, fr) =~= Seq::<(int, Seq<u8>)>::empty());
                    assert(midi_view(ret@) =~= target);
                }
                if seg_end == span {
                    self.last_local_end = 0;
                    self.next_event_index = 0;
                    proof {
                        assert(start + len_i == (passes + 1) * sp + 0) by (nonlinear_arith)
                            requires
                                start + len_i == passes * sp + sp,
                        ;
                        vstd::arithmetic::div_mod::lemma_fundamental_div_mod_converse(
                            start + len_i, sp, passes + 1, 0);
                    }
                } else {
                    self.last_local_end = seg_end;
                    proof {
                        vstd::arithmetic::div_mod::lemma_fundamental_div_mod_converse(
                            start + len_i, sp, passes, seg_end as int);
                    }
                }
                return ret;
            }
            local_start = 0;
            self.next_event_index = 0;
            proof {
                assert((passes + 1) * sp == passes * sp + sp) by (nonlinear_arith);
                passes = passes + 1;
            }
        }
    }

    /// Move the cursor forward past every event before `beat`.
    fn advance_cursor_to(&mut self, beat: Ticks)
        requires
            old(self).sequence.wf(),
            old(self).next_event_index <= old(self).sequence.event_seq().len(),
            forall|j: int| 0 <= j < old(self).next_event_index ==> #[trigger] old(self).sequence.event_seq()[j].0 < beat,
        ensures
            final(self).sequence == old(self).sequence,
            final(self).last_local_end == old(self).last_local_end,
            cursor_at(final(self).sequence.event_seq(), final(self).next_event_index as int, beat as int),
    {
        let ghost es = self.sequence.event_seq();
        while self.next_event_index < self.sequence.events.len()
            invariant
                self.sequence == old(self).sequence,
                self.last_local_end == old(self).last_local_end,
                es == self.sequence.event_seq(),
                self.sequence.wf(),
                self.next_event_index <= es.len(),
                forall|j: int| 0 <= j < self.next_event_index ==> #[trigger] es[j].0 < beat,
            ensures
                self.next_event_index < es.len() ==> es[self.next_event_index as int].0 >= beat,
            decreases es.len() - self.next_event_index,
        {
            let i = self.next_event_index;
            proof {
                assert(es[i as int] == event_view(self.sequence.events@[i as int]));
            }
            if self.sequence.events[i].beat >= beat {
                break;
            }
            self.next_event_index = i + 1;
        }
        proof {
            let c = self.next_event_index as int;
            assert forall|j: int| c <= j < es.len() implies #[trigger] es[j].0 >= beat by {
                assert(es[c].0 <= es[j].0);
            }
        }
    }
}


/// Distance from `from` to `to` going forward around a circle of `span`
/// ticks: `(to - from) mod span`, in `[0, span)`.
pub fn beat_distance(from: i64, to: i64, span: Ticks) -> (r: Ticks)
    requires
        span > 0,
    ensures
        r as int == (to as int - from as int) % (span as int),
        r < span,
{
    let f = rem_euclid_ticks(from as i128, span);
    let t = rem_euclid_ticks(to as i128, span);
    let ghost s = span as int;
    proof {
        vstd::arithmetic::div_mod::lemma_fundamental_div_mod(from as int, s);
        vstd::arithmetic::div_mod::lemma_fundamental_div_mod(to as int, s);
    }
    let ghost qf = from as int / s;
    let ghost qt = to as int / s;
    if t >= f {
        proof {
            assert(to as int - from as int == (qt - qf) * s + (t - f)) by (nonlinear_arith)
                requires
                    from as int == s * qf + f,
                    to as int == s * qt + t,
            ;
            vstd::arithmetic::div_mod::lemma_fundamental_div_mod_converse(
                to as int - from as int, s, qt - qf, (t - f) as int);
        }
        t - f
    } else {
        proof {
            assert(to as int - from as int == (qt - qf - 1) * s + (s - f + t)) by (nonlinear_arith)
                requires
                    from as int == s * qf + f,
                    to as int == s * qt + t,
            ;
            vstd::arithmetic::div_mod::lemma_fundamental_div_mod_converse(
                to as int - from as int, s, qt - qf - 1, s - f + t);
        }
        (span - f) + t
    }
}

/// The frame length of a cycle of the sequencer loop, or `None` when the
/// cycle is skipped: the transport has not moved forward since the last
/// cycle (stopped or rewound), or the beat clock does not yet know how
/// many frames a beat lasts. The length is kept to its low 32 bits.
pub fn cycle_frames(last_frame: u64, pos_frame: u64, frames_per_beat: u64) -> (r: Option<u32>)
    ensures
        r == (if pos_frame > last_frame && frames_per_beat > 0 {
            Some((pos_frame - last_frame) as u32)
        } else {
            None
        }),
{
    if pos_frame <= last_frame {
        return None;
    }
    if frames_per_beat == 0 {
        return None;
    }
    Some(#[verifier::truncate] ((pos_frame - last_frame) as u32))
}

/// Commands the GUI can send into a running sequencer.
pub enum SequencerCommand {
    /// Switch to another named sequence at the next bar boundary.
    SwitchTo(String),
}

impl SequencerCommand {
    /// The command that picking `requested` in the sequence selector
    /// sends: a switch, unless it is the sequence already playing.
    pub fn for_selection(requested: String, active: &String) -> (r: Option<SequencerCommand>)
        ensures
            requested@ != active@ ==> r == Some(SequencerCommand::SwitchTo(requested)),
            requested@ == active@ ==> r is None,
    {
        if requested == *active {
            None
        } else {
            Some(SequencerCommand::SwitchTo(requested))
        }
    }
}

/// Whole beats between two beat positions of the transport, counted as
/// beat lines crossed: `floor(cur) - floor(prev)` in beats.
pub open spec fn beats_crossed(prev: int, cur: int) -> int {
    cur / (TICKS_PER_BEAT as int) - prev / (TICKS_PER_BEAT as int)
}

/// Beat number `counter` (counted from 1) ends a bar of `beats_per_bar`
/// ticks.
pub open spec fn on_bar_line(counter: int, beats_per_bar: int) -> bool {
    counter > 0 && beats_per_bar > 0 && (counter * TICKS_PER_BEAT) % beats_per_bar == 0
}

/// The beat lines a cycle crosses are counted from the beat that holds
/// its start: with `f` the beat in which `prev` lies (`f` beats `<= prev <`
/// `f + 1` beats), `cur` lies in beat `f + beats_crossed(prev, cur)`; so
/// the count is the number of beat lines in `(prev, cur]`, negative
/// positions included.
pub proof fn law_beats_crossed_counts_beat_lines(prev: int, cur: int)
    ensures
        exists|f: int|
            #![trigger f * TICKS_PER_BEAT]
            f * TICKS_PER_BEAT <= prev < (f + 1) * TICKS_PER_BEAT && (f + beats_crossed(prev, cur))
                * TICKS_PER_BEAT <= cur < (f + beats_crossed(prev, cur) + 1) * TICKS_PER_BEAT,
        prev <= cur ==> beats_crossed(prev, cur) >= 0,
{
    let t = TICKS_PER_BEAT as int;
    vstd::arithmetic::div_mod::lemma_fundamental_div_mod(prev, t);
    vstd::arithmetic::div_mod::lemma_fundamental_div_mod(cur, t);
    let f = prev / t;
    let g = cur / t;
    assert(f * t <= prev < (f + 1) * t) by (nonlinear_arith)
        requires
            prev == t * f + prev % t,
            0 <= prev % t < t,
    ;
    assert(g * t <= cur < (g + 1) * t) by (nonlinear_arith)
        requires
            cur == t * g + cur % t,
            0 <= cur % t < t,
    ;
    assert(f + beats_crossed(prev, cur) == g);
    if prev <= cur {
        vstd::arithmetic::div_mod::lemma_div_is_ordered(prev, cur, t);
    }
}

/// A beat count closes a bar exactly when that many beats make a whole,
/// positive number of bars: `counter` beats are `n` bars of
/// `beats_per_bar` ticks for some `n >= 1`.
pub proof fn law_bar_line_is_whole_bars(counter: int, beats_per_bar: int)
    requires
        beats_per_bar > 0,
    ensures
        on_bar_line(counter, beats_per_bar) <==> counter > 0 && exists|n: int|
            n >= 1 && #[trigger] (n * beats_per_bar) == counter * TICKS_PER_BEAT,
{
    let x = counter * TICKS_PER_BEAT;
    if on_bar_line(counter, beats_per_bar) {
        vstd::arithmetic::div_mod::lemma_fundamental_div_mod(x, beats_per_bar);
        let n = x / beats_per_bar;
        assert(x == beats_per_bar * n);
        assert(n * beats_per_bar == x) by (nonlinear_arith)
            requires
                x == beats_per_bar * n,
        ;
        assert(x > 0) by (nonlinear_arith)
            requires
                counter > 0,
                x == counter * TICKS_PER_BEAT,
        ;
        assert(n >= 1) by (nonlinear_arith)
            requires
                x == beats_per_bar * n,
                x > 0,
                beats_per_bar > 0,
        ;
    }
    if counter > 0 && exists|n: int| n >= 1 && #[trigger] (n * beats_per_bar) == counter * TICKS_PER_BEAT {
        let n = choose|n: int| n >= 1 && #[trigger] (n * beats_per_bar) == counter * TICKS_PER_BEAT;
        vstd::arithmetic::div_mod::lemma_mod_multiples_basic(n, beats_per_bar);
    }
}

/// In a meter of `k` whole beats to the bar, the bar lines are the beat
/// counts that are positive multiples of `k` (in 3/4, beats 3, 6, 9, ...,
/// never beat 4).
pub proof fn law_bar_lines_of_whole_beat_meter(counter: int, k: int)
    requires
        k >= 1,
    ensures
        on_bar_line(counter, k * TICKS_PER_BEAT) <==> counter > 0 && counter % k == 0,
{
    let b = k * TICKS_PER_BEAT;
    assert(b > 0) by (nonlinear_arith)
        requires
            k >= 1,
            b == k * TICKS_PER_BEAT,
    ;
    law_bar_line_is_whole_bars(counter, b);
    if on_bar_line(counter, b) {
        let n = choose|n: int| n >= 1 && #[trigger] (n * b) == counter * TICKS_PER_BEAT;
        assert(counter == n * k) by (nonlinear_arith)
            requires
                n * b == counter * TICKS_PER_BEAT,
                b == k * TICKS_PER_BEAT,
        ;
        vstd::arithmetic::div_mod::lemma_mod_multiples_basic(n, k);
    }
    if counter > 0 && counter % k == 0 {
        vstd::arithmetic::div_mod::lemma_fundamental_div_mod(counter, k);
        let n = counter / k;
        assert(n * b == counter * TICKS_PER_BEAT) by (nonlinear_arith)
            requires
                counter == k * n + 0,
                b == k * TICKS_PER_BEAT,
        ;
        assert(n >= 1) by (nonlinear_arith)
            requires
                counter == k * n,
                counter > 0,
                k >= 1,
        ;
    }
}

/// What the sequencer loop keeps from cycle to cycle besides its
/// scheduler: the sequence playing, the bar length it was built for,
/// the beats counted so far and a switch waiting for the next bar.
pub struct SequencerState {
    pub sequence_name: String,
    /// Ticks in one bar of the sequence being played.
    pub beats_per_bar: Ticks,
    pub beat_counter: u64,
    pub pending_switch: Option<String>,
}

/// What the loop does after a cycle.
pub struct CycleActions {
    /// The cycle's length in ticks, for [`Scheduler::advance`].
    pub cycle_beat_len: Ticks,
    /// The beat count to report, when beat lines were crossed.
    pub beat_count: Option<u64>,
    /// Rebuild the scheduler for the state's sequence and bar length
    /// (and report the sequence now playing).
    pub rebuild: bool,
}

/// The sequencer's bookkeeping as values: the name playing, the bar
/// length in ticks, the beats counted and the switch waiting.
pub struct PlayState {
    pub name: Seq<char>,
    pub beats_per_bar: int,
    pub counter: int,
    pub pending: Option<Seq<char>>,
}

impl View for SequencerState {
    type V = PlayState;

    open spec fn view(&self) -> PlayState {
        PlayState {
            name: self.sequence_name@,
            beats_per_bar: self.beats_per_bar as int,
            counter: self.beat_counter as int,
            pending: match self.pending_switch {
                Some(n) => Some(n@),
                None => None,
            },
        }
    }
}

/// The state after a request to switch to `requested`: it waits for the
/// next bar line unless it names the sequence playing.
pub open spec fn after_command(s: PlayState, requested: Seq<char>) -> PlayState {
    if requested != s.name {
        PlayState { name: s.name, beats_per_bar: s.beats_per_bar, counter: s.counter, pending: Some(requested) }
    } else {
        s
    }
}

/// A cycle from beat position `prev` to `cur` ends on a bar line of the
/// sequence playing: it crosses beat lines and the count it reaches
/// closes a bar.
pub open spec fn cycle_on_bar_line(s: PlayState, prev: int, cur: int) -> bool {
    beats_crossed(prev, cur) > 0 && on_bar_line(s.counter + beats_crossed(prev, cur), s.beats_per_bar)
}

/// The state after a cycle from `prev` to `cur` while the transport's bar
/// is `transport_bpb` ticks.
pub open spec fn after_cycle(s: PlayState, prev: int, cur: int, transport_bpb: int) -> PlayState {
    let counter = s.counter + beats_crossed(prev, cur);
    if cycle_on_bar_line(s, prev, cur) {
        PlayState {
            name: match s.pending {
                Some(n) => n,
                None => s.name,
            },
            beats_per_bar: transport_bpb,
            counter,
            pending: None,
        }
    } else {
        PlayState { name: s.name, beats_per_bar: s.beats_per_bar, counter, pending: s.pending }
    }
}

/// Whether that cycle rebuilds the scheduler (and reports the name now
/// playing): on a bar line, when a switch was waiting or the bar length
/// changed.
pub open spec fn cycle_rebuilds(s: PlayState, prev: int, cur: int, transport_bpb: int) -> bool {
    cycle_on_bar_line(s, prev, cur) && (s.pending is Some || transport_bpb != s.beats_per_bar)
}

/// The beat count that cycle reports, if it crosses beat lines.
pub open spec fn cycle_report(s: PlayState, prev: int, cur: int) -> Option<int> {
    if beats_crossed(prev, cur) > 0 {
        Some(s.counter + beats_crossed(prev, cur))
    } else {
        None
    }
}

impl SequencerState {
    /// A sequencer playing `sequence_name` in bars of `beats_per_bar` ticks.
    pub fn new(sequence_name: String, beats_per_bar: Ticks) -> (s: SequencerState)
        ensures
            s.sequence_name == sequence_name,
            s.beats_per_bar == beats_per_bar,
            s.beat_counter == 0,
            s.pending_switch is None,
            s@ == (PlayState { name: sequence_name@, beats_per_bar: beats_per_bar as int, counter: 0, pending: None }),
    {
        SequencerState { sequence_name, beats_per_bar, beat_counter: 0, pending_switch: None }
    }

    /// Take a command: a switch to another sequence waits for the next
    /// bar line (replacing any switch already waiting); a switch to the
    /// sequence already playing is ignored.
    pub fn handle_command(&mut self, cmd: SequencerCommand)
        ensures
            final(self).sequence_name == old(self).sequence_name,
            final(self).beats_per_bar == old(self).beats_per_bar,
            final(self).beat_counter == old(self).beat_counter,
            match cmd {
                SequencerCommand::SwitchTo(name) => if name@ != old(self).sequence_name@ {
                    final(self).pending_switch == Some(name)
                } else {
                    final(self).pending_switch == old(self).pending_switch
                },
            },
            match cmd {
                SequencerCommand::SwitchTo(name) => final(self)@ == after_command(old(self)@, name@),
            },
    {
        match cmd {
            SequencerCommand::SwitchTo(name) => {
                if !(name == self.sequence_name) {
                    self.pending_switch = Some(name);
                }
            },
        }
    }

    /// The bookkeeping at the end of a cycle that took the transport from
    /// beat position `prev` to `cur` (in ticks) while the transport's bar
    /// is `transport_beats_per_bar` ticks. Crossed beat lines are counted
    /// and reported; when the count lands on a bar line, a waiting
    /// switch takes effect and the bar length follows the transport,
    /// and the scheduler is rebuilt if either changed.
    pub fn end_cycle(&mut self, prev: i64, cur: i64, transport_beats_per_bar: Ticks) -> (r: CycleActions)
        requires
            prev <= cur,
            old(self).beat_counter + beats_crossed(prev as int, cur as int) <= u64::MAX,
        ensures
            r.cycle_beat_len == cur - prev,
            final(self).beat_counter == old(self).beat_counter + beats_crossed(prev as int, cur as int),
            r.beat_count == (if beats_crossed(prev as int, cur as int) > 0 {
                Some(final(self).beat_counter)
            } else {
                None
            }),
            ({
                let bar = beats_crossed(prev as int, cur as int) > 0 && on_bar_line(
                    final(self).beat_counter as int,
                    old(self).beats_per_bar as int,
                );
                if bar {
                    &&& final(self).pending_switch is None
                    &&& final(self).sequence_name == (match old(self).pending_switch {
                        Some(name) => name,
                        None => old(self).sequence_name,
                    })
                    &&& final(self).beats_per_bar == transport_beats_per_bar
                    &&& r.rebuild == (transport_beats_per_bar != old(self).beats_per_bar
                        || old(self).pending_switch is Some)
                } else {
                    &&& final(self).pending_switch == old(self).pending_switch
                    &&& final(self).sequence_name == old(self).sequence_name
                    &&& final(self).beats_per_bar == old(self).beats_per_bar
                    &&& !r.rebuild
                }
            }),
            final(self)@ == after_cycle(old(self)@, prev as int, cur as int, transport_beats_per_bar as int),
            r.rebuild == cycle_rebuilds(old(self)@, prev as int, cur as int, transport_beats_per_bar as int),
            r.beat_count == (match cycle_report(old(self)@, prev as int, cur as int) {
                Some(c) => Some(c as u64),
                None => None,
            }),
    {
        let tpb = TICKS_PER_BEAT;
        let rc = rem_euclid_ticks(cur as i128, tpb);
        let rp = rem_euclid_ticks(prev as i128, tpb);
        let d: i128 = (cur as i128 - rc as i128) - (prev as i128 - rp as i128);
        let ghost fc = cur as int / (tpb as int);
        let ghost fp = prev as int / (tpb as int);
        proof {
            vstd::arithmetic::div_mod::lemma_fundamental_div_mod(cur as int, tpb as int);
            vstd::arithmetic::div_mod::lemma_fundamental_div_mod(prev as int, tpb as int);
            vstd::arithmetic::div_mod::lemma_div_is_ordered(prev as int, cur as int, tpb as int);
            assert(d == (tpb as int) * (fc - fp)) by (nonlinear_arith)
                requires
                    cur as int == (tpb as int) * fc + rc as int,
                    prev as int == (tpb as int) * fp + rp as int,
                    d == (cur as int - rc as int) - (prev as int - rp as int),
            ;
            assert(d >= 0) by (nonlinear_arith)
                requires
                    d == (tpb as int) * (fc - fp),
                    fc >= fp,
                    tpb > 0,
            ;
            vstd::arithmetic::div_mod::lemma_div_multiples_vanish(fc - fp, tpb as int);
        }
        let crossed: u64 = ((d as u128) / (tpb as u128)) as u64;
        assert(crossed as int == beats_crossed(prev as int, cur as int));
        let cycle_beat_len: u64 = (cur as i128 - prev as i128) as u64;
        let mut beat_count: Option<u64> = None;
        if crossed > 0 {
            self.beat_counter = self.beat_counter + crossed;
            beat_count = Some(self.beat_counter);
        }
        let mut rebuild = false;
        let bpb = self.beats_per_bar;
        if crossed > 0 && self.beat_counter > 0 && bpb > 0
            && ((self.beat_counter as u128) * (tpb as u128)) % (bpb as u128) == 0 {
            let meter_changed = transport_beats_per_bar != bpb;
            let new_name = self.pending_switch.take();
            rebuild = meter_changed || new_name.is_some();
            if let Some(name) = new_name {
                self.sequence_name = name;
            }
            if meter_changed {
                self.beats_per_bar = transport_beats_per_bar;
            }
        }
        CycleActions { cycle_beat_len, beat_count, rebuild }
    }
}

/// The events `es` moved by `offset` ticks and wrapped into the span.
pub open spec fn shifted_into_span(es: Seq<(int, Seq<u8>)>, offset: int, span: int) -> Seq<(int, Seq<u8>)> {
    es.map_values(|e: (int, Seq<u8>)| ((e.0 + offset) % span, e.1))
}

/// What [`Sequence::add_notes_with_offset`] adds to events `events` of a
/// sequence spanning `span` ticks, compared with the same call without
/// offset: without offset the events gained are the pattern's events;
/// with an offset they are those same events, each moved by the offset
/// and wrapped into the span (positive offsets delay, negative ones
/// anticipate); and offsets a whole span apart give the same sequence.
pub proof fn law_offset_call_shifts_added_events(
    events: Seq<(int, Seq<u8>)>,
    span: int,
    every: int,
    skip: int,
    slot: int,
    offset: int,
    bytes: Seq<u8>,
)
    requires
        span > 0,
        slot > 0,
    ensures
        ({
            let n = slot_count(span, slot) as nat;
            let gained = beat_events(pattern_beats(span, every, skip, slot, 0, n), bytes);
            &&& insert_beats(events, pattern_beats(span, every, skip, slot, 0, n), bytes).to_multiset()
                == events.to_multiset().add(gained.to_multiset())
            &&& insert_beats(events, pattern_beats(span, every, skip, slot, offset, n), bytes).to_multiset()
                == events.to_multiset().add(shifted_into_span(gained, offset, span).to_multiset())
            &&& insert_beats(events, pattern_beats(span, every, skip, slot, offset + span, n), bytes)
                == insert_beats(events, pattern_beats(span, every, skip, slot, offset, n), bytes)
        }),
{
    let n = slot_count(span, slot) as nat;
    let p0 = pattern_beats(span, every, skip, slot, 0, n);
    let po = pattern_beats(span, every, skip, slot, offset, n);
    law_offset_shifts_pattern(span, every, skip, slot, offset, n);
    law_insert_beats_multiset(events, p0, bytes);
    law_insert_beats_multiset(events, po, bytes);
    assert(beat_events(po, bytes) =~= shifted_into_span(beat_events(p0, bytes), offset, span));
}

/// A copy of `bytes`.
pub(crate) fn clone_bytes(bytes: &Vec<u8>) -> (r: Vec<u8>)
    ensures
        r@ == bytes@,
{
    let mut r: Vec<u8> = Vec::new();
    let mut i: usize = 0;
    while i < bytes.len()
        invariant
            i <= bytes.len(),
            r@ == bytes@.subrange(0, i as int),
        decreases bytes.len() - i,
    {
        r.push(bytes[i]);
        i = i + 1;
        assert(r@ =~= bytes@.subrange(0, i as int));
    }
    assert(r@ =~= bytes@);
    r
}

} // verus!
