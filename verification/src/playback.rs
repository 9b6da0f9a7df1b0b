//! What a whole run of the sequencer loop does with its bookkeeping.
//!
//! The loop takes two kinds of events: a request from the GUI to switch
//! to a named sequence ([`SequencerState::handle_command`]) and the end of
//! a process cycle ([`SequencerState::end_cycle`]). Their contracts give
//! the state after each event ([`after_command`], [`after_cycle`]); here
//! those steps are folded over a list of events and the promises that
//! span many cycles are proved of the fold.
//!
//! [`SequencerState::handle_command`]: crate::sequencer::SequencerState::handle_command
//! [`SequencerState::end_cycle`]: crate::sequencer::SequencerState::end_cycle

use vstd::prelude::*;
use crate::beat_values::TICKS_PER_BEAT;
use crate::sequencer::{
    after_command, after_cycle, beats_crossed, cycle_on_bar_line, cycle_rebuilds, cycle_report,
    law_bar_line_is_whole_bars, law_bar_lines_of_whole_beat_meter, PlayState,
};

verus! {

/// One event of the sequencer loop.
pub enum LoopEvent {
    /// A request to switch to the named sequence.
    Switch(Seq<char>),
    /// A cycle from beat position `prev` to `cur` (ticks) while the
    /// transport's bar is `transport_bpb` ticks.
    Cycle { prev: int, cur: int, transport_bpb: int },
}

/// The state after one event.
pub open spec fn step(s: PlayState, e: LoopEvent) -> PlayState {
    match e {
        LoopEvent::Switch(n) => after_command(s, n),
        LoopEvent::Cycle { prev, cur, transport_bpb } => after_cycle(s, prev, cur, transport_bpb),
    }
}

/// The state after all of `events`, in order.
pub open spec fn run(s: PlayState, events: Seq<LoopEvent>) -> PlayState
    decreases events.len(),
{
    if events.len() == 0 {
        s
    } else {
        step(run(s, events.drop_last()), events.last())
    }
}

/// The state just before event `i` of `events`.
pub open spec fn before(s: PlayState, events: Seq<LoopEvent>, i: int) -> PlayState {
    run(s, events.take(i))
}

/// Event `e` ends a cycle on a bar line of the sequence playing in `s`.
pub open spec fn lands_on_bar_line(s: PlayState, e: LoopEvent) -> bool {
    match e {
        LoopEvent::Switch(_) => false,
        LoopEvent::Cycle { prev, cur, transport_bpb } => cycle_on_bar_line(s, prev, cur),
    }
}

/// Event `e` rebuilds the scheduler (and reports the name playing).
pub open spec fn rebuilds(s: PlayState, e: LoopEvent) -> bool {
    match e {
        LoopEvent::Switch(_) => false,
        LoopEvent::Cycle { prev, cur, transport_bpb } => cycle_rebuilds(s, prev, cur, transport_bpb),
    }
}

/// The beat count that event `e` reports, if any.
pub open spec fn report(s: PlayState, e: LoopEvent) -> Option<int> {
    match e {
        LoopEvent::Switch(_) => None,
        LoopEvent::Cycle { prev, cur, transport_bpb } => cycle_report(s, prev, cur),
    }
}

/// No event of `events` ends a cycle on a bar line.
pub open spec fn no_bar_line(s: PlayState, events: Seq<LoopEvent>) -> bool {
    forall|i: int| 0 <= i < events.len() ==> !lands_on_bar_line(#[trigger] before(s, events, i), events[i])
}

/// The switch waiting after `events` when `waiting` was waiting before and
/// `name` plays throughout: the last request for another sequence.
pub open spec fn last_request(waiting: Option<Seq<char>>, name: Seq<char>, events: Seq<LoopEvent>) -> Option<Seq<char>>
    decreases events.len(),
{
    if events.len() == 0 {
        waiting
    } else {
        let earlier = last_request(waiting, name, events.drop_last());
        match events.last() {
            LoopEvent::Switch(n) => if n != name {
                Some(n)
            } else {
                earlier
            },
            LoopEvent::Cycle { .. } => earlier,
        }
    }
}

/// Beat lines crossed by the cycles of `events`.
pub open spec fn total_crossed(events: Seq<LoopEvent>) -> int
    decreases events.len(),
{
    if events.len() == 0 {
        0
    } else {
        total_crossed(events.drop_last()) + match events.last() {
            LoopEvent::Switch(_) => 0,
            LoopEvent::Cycle { prev, cur, transport_bpb } => beats_crossed(prev, cur),
        }
    }
}

/// The names the GUI is told over a run: the name playing at the start,
/// then, after each event that rebuilds the scheduler, the name playing
/// from then on.
pub open spec fn name_reports(s: PlayState, events: Seq<LoopEvent>) -> Seq<Seq<char>>
    decreases events.len(),
{
    if events.len() == 0 {
        seq![s.name]
    } else {
        let earlier = name_reports(s, events.drop_last());
        if rebuilds(run(s, events.drop_last()), events.last()) {
            earlier.push(run(s, events).name)
        } else {
            earlier
        }
    }
}

/// The transport never runs backwards within a cycle.
pub open spec fn cycles_forward(events: Seq<LoopEvent>) -> bool {
    forall|i: int| 0 <= i < events.len() ==> match #[trigger] events[i] {
        LoopEvent::Switch(_) => true,
        LoopEvent::Cycle { prev, cur, transport_bpb } => prev <= cur,
    }
}

proof fn lemma_take_drop_last(events: Seq<LoopEvent>, i: int)
    requires
        0 <= i < events.len(),
    ensures
        events.take(i + 1).drop_last() == events.take(i),
        events.take(i + 1).last() == events[i],
        events.take(events.len() as int) == events,
{
    assert(events.take(i + 1).drop_last() =~= events.take(i));
    assert(events.take(events.len() as int) =~= events);
}

proof fn lemma_before_step(s: PlayState, events: Seq<LoopEvent>, i: int)
    requires
        0 <= i < events.len(),
    ensures
        before(s, events, i + 1) == step(before(s, events, i), events[i]),
{
    lemma_take_drop_last(events, i);
}

/// A switch to another sequence waits for the next bar line, and the
/// last request before it wins: while no cycle ends on a bar line, the
/// sequence playing and its bar length stay as they were and the switch
/// waiting is the last request naming another sequence; the cycle that
/// then ends on a bar line makes that sequence the one playing, clears
/// the wait and rebuilds the scheduler.
pub proof fn law_switch_lands_on_next_bar_line(
    s: PlayState,
    events: Seq<LoopEvent>,
    prev: int,
    cur: int,
    transport_bpb: int,
)
    requires
        no_bar_line(s, events),
        cycle_on_bar_line(run(s, events), prev, cur),
    ensures
        forall|i: int|
            0 <= i <= events.len() ==> (#[trigger] before(s, events, i)).name == s.name
                && before(s, events, i).beats_per_bar == s.beats_per_bar,
        forall|i: int| 0 <= i < events.len() ==> !rebuilds(#[trigger] before(s, events, i), events[i]),
        run(s, events).pending == last_request(s.pending, s.name, events),
        ({
            let after = after_cycle(run(s, events), prev, cur, transport_bpb);
            &&& after.name == match last_request(s.pending, s.name, events) {
                Some(n) => n,
                None => s.name,
            }
            &&& after.pending is None
            &&& after.beats_per_bar == transport_bpb
        }),
        last_request(s.pending, s.name, events) is Some ==> cycle_rebuilds(run(s, events), prev, cur, transport_bpb),
{
    lemma_quiet_run(s, events);
}

/// The facts of a run in which no cycle ends on a bar line, by induction
/// on its length.
proof fn lemma_quiet_run(s: PlayState, events: Seq<LoopEvent>)
    requires
        no_bar_line(s, events),
    ensures
        forall|i: int|
            0 <= i <= events.len() ==> (#[trigger] before(s, events, i)).name == s.name
                && before(s, events, i).beats_per_bar == s.beats_per_bar,
        forall|i: int| 0 <= i < events.len() ==> !rebuilds(#[trigger] before(s, events, i), events[i]),
        run(s, events).name == s.name,
        run(s, events).beats_per_bar == s.beats_per_bar,
        run(s, events).pending == last_request(s.pending, s.name, events),
    decreases events.len(),
{
    if events.len() == 0 {
        assert(events.take(0) =~= events);
    } else {
        let n = events.len() - 1;
        let init = events.drop_last();
        assert forall|i: int| 0 <= i < init.len() implies !lands_on_bar_line(#[trigger] before(s, init, i), init[i]) by {
            assert(init.take(i) =~= events.take(i));
            assert(!lands_on_bar_line(before(s, events, i), events[i]));
        }
        lemma_quiet_run(s, init);
        assert(events.take(n) =~= init);
        lemma_take_drop_last(events, n);
        assert(!lands_on_bar_line(before(s, events, n), events[n]));
        assert forall|i: int| 0 <= i <= events.len() implies (#[trigger] before(s, events, i)).name == s.name
            && before(s, events, i).beats_per_bar == s.beats_per_bar by {
            if i < events.len() {
                assert(init.take(i) =~= events.take(i));
                assert(before(s, init, i) == before(s, events, i));
            }
        }
        assert forall|i: int| 0 <= i < events.len() implies !rebuilds(#[trigger] before(s, events, i), events[i]) by {
            assert(!lands_on_bar_line(before(s, events, i), events[i]));
        }
    }
}

/// A request for the sequence already playing changes nothing: it is
/// dropped, with no switch left waiting and nothing rebuilt.
pub proof fn law_request_for_playing_sequence_dropped(s: PlayState)
    ensures
        after_command(s, s.name) == s,
{
}

/// The GUI is told the name playing at the start first, and it is told
/// again whenever the name changes: the last name reported is always the
/// sequence playing, since the name changes only on events that rebuild
/// the scheduler.
pub proof fn law_last_report_is_playing(s: PlayState, events: Seq<LoopEvent>)
    ensures
        name_reports(s, events).len() >= 1,
        name_reports(s, events)[0] == s.name,
        name_reports(s, events).last() == run(s, events).name,
        forall|i: int|
            0 <= i < events.len() && !rebuilds(#[trigger] before(s, events, i), events[i]) ==> step(
                before(s, events, i),
                events[i],
            ).name == before(s, events, i).name,
    decreases events.len(),
{
    if events.len() > 0 {
        let init = events.drop_last();
        law_last_report_is_playing(s, init);
        let n = events.len() - 1;
        assert(events.take(n) =~= init);
        lemma_take_drop_last(events, n);
        assert forall|i: int|
            0 <= i < events.len() && !rebuilds(#[trigger] before(s, events, i), events[i]) implies step(
                before(s, events, i),
                events[i],
            ).name == before(s, events, i).name by {
            if i < n {
                assert(init.take(i) =~= events.take(i));
                assert(init[i] == events[i]);
            }
        }
        assert(events[n] == events.last());
    }
}

/// Nothing is rebuilt and no name is reported unless something changes:
/// when no switch is waiting, every request names the sequence playing
/// and the transport keeps the bar length, the run keeps that sequence
/// and bar length with no switch waiting, no event rebuilds the
/// scheduler, and the GUI is told the name once, at the start.
pub proof fn law_no_rebuild_without_change(s: PlayState, events: Seq<LoopEvent>)
    requires
        s.pending is None,
        forall|i: int| 0 <= i < events.len() ==> match #[trigger] events[i] {
            LoopEvent::Switch(n) => n == s.name,
            LoopEvent::Cycle { prev, cur, transport_bpb } => transport_bpb == s.beats_per_bar,
        },
    ensures
        forall|i: int| 0 <= i < events.len() ==> !rebuilds(#[trigger] before(s, events, i), events[i]),
        run(s, events).name == s.name,
        run(s, events).beats_per_bar == s.beats_per_bar,
        run(s, events).pending is None,
        name_reports(s, events) == seq![s.name],
    decreases events.len(),
{
    if events.len() == 0 {
    } else {
        let n = events.len() - 1;
        let init = events.drop_last();
        assert forall|i: int| 0 <= i < init.len() implies match #[trigger] init[i] {
            LoopEvent::Switch(m) => m == s.name,
            LoopEvent::Cycle { prev, cur, transport_bpb } => transport_bpb == s.beats_per_bar,
        } by {
            assert(init[i] == events[i]);
        }
        law_no_rebuild_without_change(s, init);
        assert(events.take(n) =~= init);
        lemma_take_drop_last(events, n);
        assert(events[n] == events.last());
        assert forall|i: int| 0 <= i < events.len() implies !rebuilds(#[trigger] before(s, events, i), events[i]) by {
            if i < n {
                assert(init.take(i) =~= events.take(i));
                assert(init[i] == events[i]);
                assert(before(s, init, i) == before(s, events, i));
                assert(!rebuilds(before(s, init, i), init[i]));
            } else {
                assert(before(s, events, n) == run(s, init));
                assert(match events[n] {
                    LoopEvent::Switch(m) => m == s.name,
                    LoopEvent::Cycle { prev, cur, transport_bpb } => transport_bpb == s.beats_per_bar,
                });
                assert(run(s, init).pending is None);
                assert(run(s, init).beats_per_bar == s.beats_per_bar);
                assert(!rebuilds(run(s, init), events[n]));
            }
        }
    }
}

/// The beat counter counts every beat line crossed since the start, and
/// the counts reported go strictly up: after a run whose cycles all move
/// forward, the counter is its start plus the beat lines crossed, and of
/// any two reports the later one is larger.
pub proof fn law_beat_reports_increase(s: PlayState, events: Seq<LoopEvent>)
    requires
        cycles_forward(events),
    ensures
        run(s, events).counter == s.counter + total_crossed(events),
        forall|i: int, j: int|
            0 <= i < j < events.len() && #[trigger] report(before(s, events, i), events[i]) is Some
                && #[trigger] report(before(s, events, j), events[j]) is Some ==> report(
                before(s, events, i),
                events[i],
            )->0 < report(before(s, events, j), events[j])->0,
{
    lemma_counter_run(s, events);
    assert forall|i: int, j: int|
        0 <= i < j < events.len() && #[trigger] report(before(s, events, i), events[i]) is Some
            && #[trigger] report(before(s, events, j), events[j]) is Some implies report(
            before(s, events, i),
            events[i],
        )->0 < report(before(s, events, j), events[j])->0 by {
        lemma_before_step(s, events, i);
        assert(report(before(s, events, i), events[i])->0 == before(s, events, i + 1).counter);
        assert(before(s, events, i + 1).counter <= before(s, events, j).counter);
        lemma_before_step(s, events, j);
    }
}

proof fn lemma_step_counter(s: PlayState, e: LoopEvent)
    ensures
        step(s, e).counter == s.counter + match e {
            LoopEvent::Switch(_) => 0,
            LoopEvent::Cycle { prev, cur, transport_bpb } => beats_crossed(prev, cur),
        },
        report(s, e) is Some ==> report(s, e)->0 == step(s, e).counter && step(s, e).counter > s.counter,
{
}

/// The counter along a run where every cycle moves forward: it is the
/// start plus the beat lines crossed so far, and it never goes down.
proof fn lemma_counter_run(s: PlayState, events: Seq<LoopEvent>)
    requires
        cycles_forward(events),
    ensures
        run(s, events).counter == s.counter + total_crossed(events),
        forall|i: int, j: int|
            0 <= i <= j <= events.len() ==> (#[trigger] before(s, events, i)).counter <= (#[trigger] before(
                s,
                events,
                j,
            )).counter,
    decreases events.len(),
{
    if events.len() == 0 {
        assert(events.take(0) =~= events);
    } else {
        let n = events.len() - 1;
        let init = events.drop_last();
        assert forall|i: int| 0 <= i < init.len() implies match #[trigger] init[i] {
            LoopEvent::Switch(_) => true,
            LoopEvent::Cycle { prev, cur, transport_bpb } => prev <= cur,
        } by {
            assert(init[i] == events[i]);
        }
        lemma_counter_run(s, init);
        assert(events.take(n) =~= init);
        lemma_take_drop_last(events, n);
        lemma_step_counter(run(s, init), events.last());
        assert(events[n] == events.last());
        match events.last() {
            LoopEvent::Switch(_) => {},
            LoopEvent::Cycle { prev, cur, transport_bpb } => {
                vstd::arithmetic::div_mod::lemma_div_is_ordered(
                    prev,
                    cur,
                    crate::beat_values::TICKS_PER_BEAT as int,
                );
            },
        }
        assert forall|i: int, j: int| 0 <= i <= j <= events.len() implies (#[trigger] before(s, events, i)).counter
            <= (#[trigger] before(s, events, j)).counter by {
            if i <= n {
                assert(init.take(i) =~= events.take(i));
                assert(before(s, init, i) == before(s, events, i));
            }
            if j <= n {
                assert(init.take(j) =~= events.take(j));
                assert(before(s, init, j) == before(s, events, j));
                assert(before(s, init, i).counter <= before(s, init, j).counter);
            } else {
                assert(before(s, events, j) == run(s, events));
                if i <= n {
                    assert(before(s, init, i).counter <= before(s, init, n).counter);
                    assert(before(s, init, n) == run(s, init)) by {
                        assert(init.take(n) =~= init);
                    }
                }
            }
        }
    }
}

/// A cycle changes what plays (the sequence or its bar length), or
/// rebuilds the scheduler, only when the beat count it reaches is a whole,
/// positive number of bars of the bar length that was playing; and when
/// it reaches one, a waiting switch lands and the bar length follows the
/// transport.
pub proof fn law_cycle_changes_only_on_whole_bars(s: PlayState, prev: int, cur: int, transport_bpb: int)
    requires
        s.beats_per_bar > 0,
    ensures
        ({
            let after = after_cycle(s, prev, cur, transport_bpb);
            let reached = s.counter + beats_crossed(prev, cur);
            let whole_bars = beats_crossed(prev, cur) > 0 && reached > 0 && exists|n: int|
                n >= 1 && #[trigger] (n * s.beats_per_bar) == reached * TICKS_PER_BEAT;
            &&& after.counter == reached
            &&& (after.name != s.name || after.beats_per_bar != s.beats_per_bar
                || cycle_rebuilds(s, prev, cur, transport_bpb)) ==> whole_bars
            &&& whole_bars ==> after.pending is None && after.beats_per_bar == transport_bpb
                && after.name == match s.pending {
                Some(n) => n,
                None => s.name,
            }
            &&& !whole_bars ==> after.pending == s.pending
        }),
{
    law_bar_line_is_whole_bars(s.counter + beats_crossed(prev, cur), s.beats_per_bar);
}

/// In a meter of `k` whole beats to the bar, a waiting switch lands on a
/// cycle exactly when the beat count it reaches is a multiple of `k` (in
/// 3/4, on beat 3 or 6, never on beat 4).
pub proof fn law_switch_lands_on_multiples_of_meter(s: PlayState, prev: int, cur: int, transport_bpb: int, k: int)
    requires
        k >= 1,
        s.beats_per_bar == k * TICKS_PER_BEAT,
        s.pending is Some,
        beats_crossed(prev, cur) > 0,
        s.counter >= 0,
    ensures
        ({
            let after = after_cycle(s, prev, cur, transport_bpb);
            let reached = s.counter + beats_crossed(prev, cur);
            &&& (after.pending is None) <==> reached % k == 0
            &&& reached % k == 0 ==> after.name == s.pending->0 && cycle_rebuilds(s, prev, cur, transport_bpb)
            &&& reached % k != 0 ==> after.name == s.name && !cycle_rebuilds(s, prev, cur, transport_bpb)
        }),
{
    law_bar_lines_of_whole_beat_meter(s.counter + beats_crossed(prev, cur), k);
}

} // verus!
