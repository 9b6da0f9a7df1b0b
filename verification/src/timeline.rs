//! The mathematical model of click sequences and of the scheduler that
//! plays them: where a note pattern puts its events, how new events are
//! merged into a sorted event list, and which events a cycle of the
//! transport fires.
//!
//! An event is modelled as a pair `(beat, bytes)`: its position in ticks
//! inside the sequence and the MIDI bytes it sends.

use vstd::prelude::*;

verus! {

/// Events are ordered by beat.
pub open spec fn beats_sorted(es: Seq<(int, Seq<u8>)>) -> bool {
    forall|i: int, j: int| #![trigger es[i], es[j]] 0 <= i <= j < es.len() ==> es[i].0 <= es[j].0
}

/// Every event lies in `[0, span)`.
pub open spec fn beats_within(es: Seq<(int, Seq<u8>)>, span: int) -> bool {
    forall|i: int| 0 <= i < es.len() ==> 0 <= #[trigger] es[i].0 < span
}

/// Number of slots of `slot` ticks that start inside `[0, span)`:
/// `ceil(span / slot)`.
pub open spec fn slot_count(span: int, slot: int) -> int {
    (span + slot - 1) / slot
}

/// Slot `k` fires when it is past the first `skip` slots and lies on the
/// `every`-slot grid that starts there.
pub open spec fn slot_fires(k: int, every: int, skip: int) -> bool {
    k >= skip && (k - skip) % every == 0
}

/// Where slot `k` lands: its start shifted by `offset` and wrapped into
/// `[0, span)`.
pub open spec fn slot_beat(k: int, slot: int, offset: int, span: int) -> int {
    (k * slot + offset) % span
}

/// The beats of the events that the firing slots among the first `n`
/// slots produce, in slot order.
pub open spec fn pattern_beats(span: int, every: int, skip: int, slot: int, offset: int, n: nat) -> Seq<int>
    decreases n,
{
    if n == 0 {
        Seq::empty()
    } else {
        let prev = pattern_beats(span, every, skip, slot, offset, (n - 1) as nat);
        if slot_fires(n - 1, every, skip) {
            prev.push(slot_beat(n - 1, slot, offset, span))
        } else {
            prev
        }
    }
}

/// Index of the first event whose beat is after `b`: a new event at `b`
/// goes there, after every event at or before `b`.
pub open spec fn insert_pos(es: Seq<(int, Seq<u8>)>, b: int) -> int
    decreases es.len(),
{
    if es.len() == 0 {
        0
    } else if es[0].0 > b {
        0
    } else {
        1 + insert_pos(es.drop_first(), b)
    }
}

/// `es` with `e` inserted after every event that is not later than it.
pub open spec fn insert_sorted(es: Seq<(int, Seq<u8>)>, e: (int, Seq<u8>)) -> Seq<(int, Seq<u8>)> {
    es.insert(insert_pos(es, e.0), e)
}

/// `es` with one event per beat of `beats`, each sending `bytes`,
/// inserted in the order of `beats`, each after every event at or
/// before its beat.
pub open spec fn insert_beats(es: Seq<(int, Seq<u8>)>, beats: Seq<int>, bytes: Seq<u8>) -> Seq<(int, Seq<u8>)>
    decreases beats.len(),
{
    if beats.len() == 0 {
        es
    } else {
        insert_sorted(insert_beats(es, beats.drop_last(), bytes), (beats.last(), bytes))
    }
}

/// A new event at beat `b` goes after every event at or before `b` and
/// before the first event after it: events at the same beat keep the
/// order in which they were added.
pub proof fn lemma_insert_pos_props(es: Seq<(int, Seq<u8>)>, b: int)
    ensures
        0 <= insert_pos(es, b) <= es.len(),
        forall|j: int| 0 <= j < insert_pos(es, b) ==> #[trigger] es[j].0 <= b,
        insert_pos(es, b) < es.len() ==> es[insert_pos(es, b)].0 > b,
    decreases es.len(),
{
    if es.len() > 0 && es[0].0 <= b {
        lemma_insert_pos_props(es.drop_first(), b);
        assert forall|j: int| 0 <= j < insert_pos(es, b) implies #[trigger] es[j].0 <= b by {
            if j > 0 {
                assert(es[j] == es.drop_first()[j - 1]);
            }
        }
    }
}

/// The insertion point is the one index that every earlier event is at
/// or before `b` and the event there is after `b`.
pub proof fn lemma_insert_pos_unique(es: Seq<(int, Seq<u8>)>, b: int, p: int)
    requires
        0 <= p <= es.len(),
        forall|j: int| 0 <= j < p ==> #[trigger] es[j].0 <= b,
        p < es.len() ==> es[p].0 > b,
    ensures
        insert_pos(es, b) == p,
    decreases es.len(),
{
    if p > 0 {
        assert(es[0].0 <= b);
        assert forall|j: int| 0 <= j < p - 1 implies #[trigger] es.drop_first()[j].0 <= b by {
            assert(es.drop_first()[j] == es[j + 1]);
        }
        if p - 1 < es.drop_first().len() {
            assert(es.drop_first()[p - 1] == es[p]);
        }
        lemma_insert_pos_unique(es.drop_first(), b, p - 1);
    }
}

pub proof fn lemma_insert_sorted_keeps(es: Seq<(int, Seq<u8>)>, e: (int, Seq<u8>), span: int)
    requires
        beats_sorted(es),
        beats_within(es, span),
        0 <= e.0 < span,
    ensures
        beats_sorted(insert_sorted(es, e)),
        beats_within(insert_sorted(es, e), span),
        insert_sorted(es, e).len() == es.len() + 1,
        insert_sorted(es, e).to_multiset() =~= es.to_multiset().insert(e),
{
    lemma_insert_pos_props(es, e.0);
    let p = insert_pos(es, e.0);
    let r = insert_sorted(es, e);
    assert forall|i: int| 0 <= i < r.len() implies r[i] == (if i < p {
        es[i]
    } else if i == p {
        e
    } else {
        es[i - 1]
    }) by {}
    assert forall|i: int, j: int| #![trigger r[i], r[j]] 0 <= i <= j < r.len() implies r[i].0 <= r[j].0 by {
        if i < p && j > p {
            assert(es[i].0 <= es[j - 1].0);
        } else if i == p && j > p {
            assert(es[j - 1].0 > e.0) by {
                if j - 1 > p {
                    assert(es[p].0 <= es[j - 1].0);
                }
            }
        } else if i > p {
            assert(es[i - 1].0 <= es[j - 1].0);
        } else if i < p && j < p {
            assert(es[i].0 <= es[j].0);
        }
    }
    vstd::seq_lib::to_multiset_insert(es, p, e);
}

pub proof fn lemma_insert_beats_len(es: Seq<(int, Seq<u8>)>, beats: Seq<int>, bytes: Seq<u8>)
    ensures
        insert_beats(es, beats, bytes).len() == es.len() + beats.len(),
    decreases beats.len(),
{
    if beats.len() > 0 {
        lemma_insert_beats_len(es, beats.drop_last(), bytes);
        lemma_insert_pos_props(insert_beats(es, beats.drop_last(), bytes), beats.last());
    }
}

/// Frame offset of an event `x` ticks into a cycle of `len` ticks that
/// lasts `frames` frames: `x * frames / len`, rounded to the nearest
/// frame (halves round up).
pub open spec fn round_time(x: int, len: int, frames: int) -> int {
    (2 * x * frames + len) / (2 * len)
}

/// The events of one pass over the sequence whose start lies `o` ticks
/// after the start of a cycle of `len` ticks: those that fall inside the
/// cycle, in sequence order, each given by its offset from the cycle
/// start and its bytes.
pub open spec fn pass_occurrences(es: Seq<(int, Seq<u8>)>, o: int, len: int) -> Seq<(int, Seq<u8>)>
    decreases es.len(),
{
    if es.len() == 0 {
        Seq::empty()
    } else {
        let rest = pass_occurrences(es.drop_last(), o, len);
        let e = es.last();
        if 0 <= o + e.0 < len {
            rest.push((o + e.0, e.1))
        } else {
            rest
        }
    }
}

/// What is left of a cycle of `len` ticks after the first `o`.
pub open spec fn cycle_gap(o: int, len: int) -> int {
    if o < len {
        len - o
    } else {
        0
    }
}

/// Every event that a cycle of `len` ticks meets, pass after pass, when
/// the current pass over a sequence of `span` ticks started `o` ticks
/// after the cycle (`o <= 0` for the pass the cycle starts in): each is
/// given by its offset from the cycle start and its bytes, in the order
/// of those offsets.
pub open spec fn occurrences(es: Seq<(int, Seq<u8>)>, span: int, o: int, len: int) -> Seq<(int, Seq<u8>)>
    decreases cycle_gap(o, len),
{
    if span <= 0 || o >= len {
        Seq::empty()
    } else {
        pass_occurrences(es, o, len) + occurrences(es, span, o + span, len)
    }
}

/// Occurrences with their offsets turned into frame offsets.
pub open spec fn timed(occ: Seq<(int, Seq<u8>)>, len: int, frames: int) -> Seq<(int, Seq<u8>)> {
    occ.map_values(|p: (int, Seq<u8>)| (round_time(p.0, len, frames), p.1))
}

/// What a cycle of `len` ticks and `frames` frames that starts at beat
/// `start` of a sequence of `span` ticks emits: every event in the
/// cyclic interval `[start, start + len)`, as `(frame offset, bytes)`.
pub open spec fn cycle_events(es: Seq<(int, Seq<u8>)>, span: int, start: int, len: int, frames: int) -> Seq<(int, Seq<u8>)> {
    timed(occurrences(es, span, -start, len), len, frames)
}

/// The occurrences moved `d` ticks later.
pub open spec fn shifted(occ: Seq<(int, Seq<u8>)>, d: int) -> Seq<(int, Seq<u8>)> {
    occ.map_values(|p: (int, Seq<u8>)| (p.0 + d, p.1))
}

/// `cursor` separates the events before beat `b` from the rest.
pub open spec fn cursor_at(es: Seq<(int, Seq<u8>)>, cursor: int, b: int) -> bool {
    &&& 0 <= cursor <= es.len()
    &&& forall|j: int| 0 <= j < cursor ==> #[trigger] es[j].0 < b
    &&& forall|j: int| cursor <= j < es.len() ==> #[trigger] es[j].0 >= b
}

pub proof fn lemma_timed_add(a: Seq<(int, Seq<u8>)>, b: Seq<(int, Seq<u8>)>, len: int, frames: int)
    ensures
        timed(a + b, len, frames) == timed(a, len, frames) + timed(b, len, frames),
{
    assert(timed(a + b, len, frames) =~= timed(a, len, frames) + timed(b, len, frames));
}

pub proof fn lemma_timed_push(a: Seq<(int, Seq<u8>)>, x: (int, Seq<u8>), len: int, frames: int)
    ensures
        timed(a.push(x), len, frames) == timed(a, len, frames).push((round_time(x.0, len, frames), x.1)),
{
    assert(timed(a.push(x), len, frames) =~= timed(a, len, frames).push((round_time(x.0, len, frames), x.1)));
}

pub proof fn lemma_shifted_add(a: Seq<(int, Seq<u8>)>, b: Seq<(int, Seq<u8>)>, d: int)
    ensures
        shifted(a + b, d) == shifted(a, d) + shifted(b, d),
{
    assert(shifted(a + b, d) =~= shifted(a, d) + shifted(b, d));
}

/// Extending the events by one adds that event to the pass when it falls
/// inside the cycle.
pub proof fn lemma_pass_take_step(es: Seq<(int, Seq<u8>)>, i: int, o: int, len: int)
    requires
        0 <= i < es.len(),
    ensures
        pass_occurrences(es.take(i + 1), o, len) == (if 0 <= o + es[i].0 < len {
            pass_occurrences(es.take(i), o, len).push((o + es[i].0, es[i].1))
        } else {
            pass_occurrences(es.take(i), o, len)
        }),
{
    assert(es.take(i + 1).drop_last() =~= es.take(i));
    assert(es.take(i + 1).last() == es[i]);
}

/// A pass in which no event falls inside the cycle is empty.
pub proof fn lemma_pass_none(es: Seq<(int, Seq<u8>)>, o: int, len: int)
    requires
        forall|j: int| 0 <= j < es.len() ==> !(0 <= o + #[trigger] es[j].0 < len),
    ensures
        pass_occurrences(es, o, len) == Seq::<(int, Seq<u8>)>::empty(),
    decreases es.len(),
{
    if es.len() > 0 {
        assert forall|j: int| 0 <= j < es.drop_last().len() implies !(0 <= o + #[trigger] es.drop_last()[j].0 < len) by {
            assert(es.drop_last()[j] == es[j]);
        }
        lemma_pass_none(es.drop_last(), o, len);
        assert(es.last() == es[es.len() - 1]);
    }
}

/// Events from index `c` on that fall outside the cycle do not change
/// the pass.
pub proof fn lemma_pass_tail_out(es: Seq<(int, Seq<u8>)>, c: int, o: int, len: int)
    requires
        0 <= c <= es.len(),
        forall|j: int| c <= j < es.len() ==> !(0 <= o + #[trigger] es[j].0 < len),
    ensures
        pass_occurrences(es, o, len) == pass_occurrences(es.take(c), o, len),
    decreases es.len() - c,
{
    if c < es.len() {
        lemma_pass_take_step(es, c, o, len);
        lemma_pass_tail_out(es, c + 1, o, len);
    } else {
        assert(es.take(c) =~= es);
    }
}

/// Nothing occurs in a cycle of no ticks, nor in a sequence without
/// events.
pub proof fn lemma_occurrences_empty(es: Seq<(int, Seq<u8>)>, span: int, o: int, len: int)
    requires
        len <= 0 || es.len() == 0,
    ensures
        occurrences(es, span, o, len) == Seq::<(int, Seq<u8>)>::empty(),
    decreases cycle_gap(o, len),
{
    if !(span <= 0 || o >= len) {
        lemma_pass_none(es, o, len);
        lemma_occurrences_empty(es, span, o + span, len);
        assert(Seq::<(int, Seq<u8>)>::empty() + Seq::<(int, Seq<u8>)>::empty() =~= Seq::<(int, Seq<u8>)>::empty());
    }
}

/// Cutting a cycle at `a` ticks splits each pass in two: the events
/// before the cut, then the ones after it, seen from the cut.
pub proof fn lemma_pass_split(es: Seq<(int, Seq<u8>)>, o: int, a: int, b: int)
    requires
        beats_sorted(es),
        a >= 0,
        b >= 0,
    ensures
        pass_occurrences(es, o, a + b) == pass_occurrences(es, o, a) + shifted(
            pass_occurrences(es, o - a, b),
            a,
        ),
    decreases es.len(),
{
    if es.len() == 0 {
        assert(shifted(Seq::<(int, Seq<u8>)>::empty(), a) =~= Seq::<(int, Seq<u8>)>::empty());
        assert(Seq::<(int, Seq<u8>)>::empty() + Seq::<(int, Seq<u8>)>::empty() =~= Seq::<(int, Seq<u8>)>::empty());
    } else {
        let init = es.drop_last();
        let e = es.last();
        assert(beats_sorted(init)) by {
            assert forall|i: int, j: int| #![trigger init[i], init[j]] 0 <= i <= j < init.len() implies init[i].0 <= init[j].0 by {
                assert(init[i] == es[i] && init[j] == es[j]);
            }
        }
        lemma_pass_split(init, o, a, b);
        let p1 = pass_occurrences(init, o, a);
        let p2 = pass_occurrences(init, o - a, b);
        if 0 <= o + e.0 < a {
            assert forall|j: int| 0 <= j < init.len() implies !(0 <= (o - a) + #[trigger] init[j].0 < b) by {
                assert(init[j] == es[j]);
                assert(es[j].0 <= es[es.len() - 1].0);
            }
            lemma_pass_none(init, o - a, b);
            assert(shifted(p2, a) =~= Seq::<(int, Seq<u8>)>::empty());
            assert(p1.push((o + e.0, e.1)) + shifted(p2, a) =~= (p1 + shifted(p2, a)).push((o + e.0, e.1)));
        } else if a <= o + e.0 < a + b {
            assert(shifted(p2.push((o - a + e.0, e.1)), a) =~= shifted(p2, a).push((o + e.0, e.1)));
            assert(p1 + shifted(p2, a).push((o + e.0, e.1)) =~= (p1 + shifted(p2, a)).push((o + e.0, e.1)));
        }
    }
}

/// A pass that starts a whole span or more before the cycle meets
/// nothing.
pub proof fn lemma_occurrences_skip_pass(es: Seq<(int, Seq<u8>)>, span: int, o: int, len: int)
    requires
        beats_within(es, span),
        span > 0,
        o + span <= 0,
        len >= 0,
    ensures
        occurrences(es, span, o, len) == occurrences(es, span, o + span, len),
{
    assert forall|j: int| 0 <= j < es.len() implies !(0 <= o + #[trigger] es[j].0 < len) by {}
    lemma_pass_none(es, o, len);
    assert(Seq::<(int, Seq<u8>)>::empty() + occurrences(es, span, o + span, len) =~= occurrences(es, span, o + span, len));
}

/// Passes that start whole spans before the cycle meet nothing.
pub proof fn lemma_occurrences_skip_passes(es: Seq<(int, Seq<u8>)>, span: int, x: int, q: nat, len: int)
    requires
        beats_within(es, span),
        span > 0,
        x <= 0,
        len >= 0,
    ensures
        occurrences(es, span, x - q * span, len) == occurrences(es, span, x, len),
    decreases q,
{
    if q > 0 {
        assert(x - q * span + span == x - (q - 1) * span) by (nonlinear_arith);
        assert(x - (q - 1) * span <= 0) by (nonlinear_arith)
            requires
                x <= 0,
                q >= 1,
                span > 0,
        ;
        lemma_occurrences_skip_pass(es, span, x - q * span, len);
        lemma_occurrences_skip_passes(es, span, x, (q - 1) as nat, len);
        assert(((q - 1) as nat) * span == (q - 1) * span);
    } else {
        assert(x - q * span == x) by (nonlinear_arith)
            requires
                q == 0,
        ;
    }
}

/// Cutting a cycle at `a` ticks: what the whole cycle meets is what its
/// first `a` ticks meet, then what the remaining `b` ticks meet seen
/// from the cut.
pub proof fn lemma_occurrences_split(es: Seq<(int, Seq<u8>)>, span: int, o: int, a: int, b: int)
    requires
        beats_sorted(es),
        beats_within(es, span),
        span > 0,
        a >= 0,
        b >= 0,
    ensures
        occurrences(es, span, o, a + b) == occurrences(es, span, o, a) + shifted(
            occurrences(es, span, o - a, b),
            a,
        ),
    decreases cycle_gap(o, a + b),
{
    let e = Seq::<(int, Seq<u8>)>::empty();
    if o >= a + b {
        assert(shifted(e, a) =~= e);
        assert(e + e =~= e);
    } else {
        lemma_occurrences_split(es, span, o + span, a, b);
        lemma_pass_split(es, o, a, b);
        let pa = pass_occurrences(es, o, a);
        let pb = pass_occurrences(es, o - a, b);
        let oa = occurrences(es, span, o + span, a);
        let ob = occurrences(es, span, o + span - a, b);
        lemma_shifted_add(pb, ob, a);
        assert(o - a + span == o + span - a);
        if o >= a {
            assert forall|j: int| 0 <= j < es.len() implies !(0 <= o + #[trigger] es[j].0 < a) by {}
            lemma_pass_none(es, o, a);
            assert(oa =~= e);
            assert(shifted(e, a) =~= e);
            assert(e + shifted(pb, a) =~= shifted(pb, a));
            assert(e + shifted(pb + ob, a) =~= shifted(pb + ob, a));
            assert((e + shifted(pb, a)) + (e + shifted(ob, a)) =~= shifted(pb, a) + shifted(ob, a));
        } else {
            if o + span >= a {
                assert(oa =~= e);
            } else {
                assert forall|j: int| 0 <= j < es.len() implies !(0 <= (o - a) + #[trigger] es[j].0 < b) by {}
                lemma_pass_none(es, o - a, b);
                assert(shifted(e, a) =~= e);
            }
            assert((pa + shifted(pb, a)) + (oa + shifted(ob, a)) =~= (pa + oa) + (shifted(pb, a) + shifted(ob, a)));
        }
    }
}

/// The events that `beats` stand for, each sending `bytes`.
pub open spec fn beat_events(beats: Seq<int>, bytes: Seq<u8>) -> Seq<(int, Seq<u8>)> {
    beats.map_values(|b: int| (b, bytes))
}

/// Adding events keeps every event already there and adds exactly the
/// new ones: the result is the old events and the new ones, reordered.
pub proof fn law_insert_beats_multiset(es: Seq<(int, Seq<u8>)>, beats: Seq<int>, bytes: Seq<u8>)
    ensures
        insert_beats(es, beats, bytes).to_multiset() == es.to_multiset().add(
            beat_events(beats, bytes).to_multiset(),
        ),
    decreases beats.len(),
{
    broadcast use vstd::multiset::group_multiset_axioms;
    if beats.len() == 0 {
        assert(beat_events(beats, bytes) =~= Seq::<(int, Seq<u8>)>::empty());
        assert(es.to_multiset().add(Seq::<(int, Seq<u8>)>::empty().to_multiset()) =~= es.to_multiset()) by {
            vstd::seq_lib::to_multiset_len(Seq::<(int, Seq<u8>)>::empty());
        }
    } else {
        law_insert_beats_multiset(es, beats.drop_last(), bytes);
        let prev = insert_beats(es, beats.drop_last(), bytes);
        let e = (beats.last(), bytes);
        lemma_insert_pos_props(prev, e.0);
        vstd::seq_lib::to_multiset_insert(prev, insert_pos(prev, e.0), e);
        assert(beat_events(beats, bytes) =~= beat_events(beats.drop_last(), bytes).push(e));
        vstd::seq_lib::to_multiset_build(beat_events(beats.drop_last(), bytes), e);
        assert(es.to_multiset().add(beat_events(beats.drop_last(), bytes).to_multiset()).insert(e)
            =~= es.to_multiset().add(beat_events(beats.drop_last(), bytes).to_multiset().insert(e)));
    }
}

/// Every event fires exactly once however the transport is cut into
/// cycles: a cycle of `a + b` ticks starting at `start` meets exactly
/// what a cycle of `a` ticks from `start` meets, followed by what the
/// next cycle of `b` ticks, starting where the first one ended, meets
/// (its offsets counted from the first cycle's start).
pub proof fn law_adjacent_cycles(es: Seq<(int, Seq<u8>)>, span: int, start: int, a: int, b: int)
    requires
        beats_sorted(es),
        beats_within(es, span),
        0 <= start < span,
        a >= 0,
        b >= 0,
    ensures
        occurrences(es, span, -start, a + b) == occurrences(es, span, -start, a) + shifted(
            occurrences(es, span, -((start + a) % span), b),
            a,
        ),
        ((start + a) % span + b) % span == (start + a + b) % span,
{
    vstd::arithmetic::div_mod::lemma_add_mod_noop(start + a, b, span);
    vstd::arithmetic::div_mod::lemma_mod_twice(b, span);
    vstd::arithmetic::div_mod::lemma_add_mod_noop((start + a) % span, b, span);
    vstd::arithmetic::div_mod::lemma_mod_twice(start + a, span);
    lemma_occurrences_split(es, span, -start, a, b);
    let r = (start + a) % span;
    let q = (start + a) / span;
    vstd::arithmetic::div_mod::lemma_fundamental_div_mod(start + a, span);
    assert(q >= 0) by (nonlinear_arith)
        requires
            start + a == span * q + r,
            0 <= r < span,
            start + a >= 0,
            span > 0,
    ;
    assert(-start - a == -r - q * span) by (nonlinear_arith)
        requires
            start + a == span * q + r,
    ;
    lemma_occurrences_skip_passes(es, span, -r, q as nat, b);
}

/// Offsets in nondecreasing order.
pub open spec fn offsets_sorted(occ: Seq<(int, Seq<u8>)>) -> bool {
    forall|i: int, j: int| #![trigger occ[i], occ[j]] 0 <= i <= j < occ.len() ==> occ[i].0 <= occ[j].0
}

/// Every offset lies in `[lo, hi)`.
pub open spec fn offsets_within(occ: Seq<(int, Seq<u8>)>, lo: int, hi: int) -> bool {
    forall|i: int| 0 <= i < occ.len() ==> lo <= #[trigger] occ[i].0 < hi
}

pub proof fn lemma_pass_ordered(es: Seq<(int, Seq<u8>)>, span: int, o: int, len: int)
    requires
        beats_sorted(es),
        beats_within(es, span),
    ensures
        offsets_sorted(pass_occurrences(es, o, len)),
        offsets_within(pass_occurrences(es, o, len), o, o + span),
        offsets_within(pass_occurrences(es, o, len), 0, len),
        forall|i: int| 0 <= i < pass_occurrences(es, o, len).len() ==> #[trigger] pass_occurrences(es, o, len)[i].0
            <= o + es.last().0,
    decreases es.len(),
{
    if es.len() > 0 {
        let init = es.drop_last();
        let e = es.last();
        assert(beats_sorted(init)) by {
            assert forall|i: int, j: int| #![trigger init[i], init[j]] 0 <= i <= j < init.len() implies init[i].0 <= init[j].0 by {
                assert(init[i] == es[i] && init[j] == es[j]);
            }
        }
        assert(beats_within(init, span)) by {
            assert forall|i: int| 0 <= i < init.len() implies 0 <= #[trigger] init[i].0 < span by {
                assert(init[i] == es[i]);
            }
        }
        assert(0 <= e.0 < span) by {
            assert(e == es[es.len() - 1]);
        }
        lemma_pass_ordered(init, span, o, len);
        let p = pass_occurrences(init, o, len);
        if init.len() > 0 {
            assert(init.last() == es[es.len() - 2]);
            assert(es[es.len() - 2].0 <= es[es.len() - 1].0);
        }
        assert(forall|i: int| 0 <= i < p.len() ==> #[trigger] p[i].0 <= o + e.0) by {
            if init.len() == 0 {
                assert(p.len() == 0);
            }
        }
    }
}

pub proof fn lemma_occurrences_ordered(es: Seq<(int, Seq<u8>)>, span: int, o: int, len: int)
    requires
        beats_sorted(es),
        beats_within(es, span),
        span > 0,
    ensures
        offsets_sorted(occurrences(es, span, o, len)),
        offsets_within(occurrences(es, span, o, len), o, len),
        offsets_within(occurrences(es, span, o, len), 0, len),
    decreases cycle_gap(o, len),
{
    if o < len {
        lemma_pass_ordered(es, span, o, len);
        lemma_occurrences_ordered(es, span, o + span, len);
        let a = pass_occurrences(es, o, len);
        let b = occurrences(es, span, o + span, len);
        let c = a + b;
        assert forall|i: int, j: int| #![trigger c[i], c[j]] 0 <= i <= j < c.len() implies c[i].0 <= c[j].0 by {
            if j < a.len() {
                assert(a[i].0 <= a[j].0);
            } else if i >= a.len() {
                assert(b[i - a.len()].0 <= b[j - a.len()].0);
            } else {
                assert(a[i].0 < o + span);
                assert(o + span <= b[j - a.len()].0);
            }
        }
        assert forall|i: int| 0 <= i < c.len() implies o <= #[trigger] c[i].0 < len by {
            if i < a.len() {
                assert(a[i] == c[i]);
            } else {
                assert(b[i - a.len()] == c[i]);
            }
        }
        assert forall|i: int| 0 <= i < c.len() implies 0 <= #[trigger] c[i].0 < len by {
            if i < a.len() {
                assert(a[i] == c[i]);
            } else {
                assert(b[i - a.len()] == c[i]);
            }
        }
    }
}

proof fn lemma_round_time_bounds(x: int, y: int, len: int, frames: int)
    requires
        0 <= x <= y < len,
        frames >= 0,
    ensures
        0 <= round_time(x, len, frames) <= round_time(y, len, frames) <= frames,
{
    let nx = 2 * x * frames + len;
    let ny = 2 * y * frames + len;
    let d = 2 * len;
    assert(0 <= nx <= ny) by (nonlinear_arith)
        requires
            0 <= x <= y,
            frames >= 0,
            len > 0,
            nx == 2 * x * frames + len,
            ny == 2 * y * frames + len,
    ;
    vstd::arithmetic::div_mod::lemma_div_is_ordered(nx, ny, d);
    vstd::arithmetic::div_mod::lemma_div_pos_is_pos(nx, d);
    vstd::arithmetic::div_mod::lemma_fundamental_div_mod(ny, d);
    vstd::arithmetic::div_mod::lemma_mod_pos_bound(ny, d);
    let t = ny / d;
    assert(t <= frames) by (nonlinear_arith)
        requires
            ny == d * t + ny % d,
            0 <= ny % d,
            len > 0,
            ny == 2 * y * frames + len,
            d == 2 * len,
            y < len,
            frames >= 0,
    ;
}

/// A cycle's events come out in firing order: their frame offsets never
/// decrease and lie between the start of the cycle (0) and its end
/// (`frames`).
pub proof fn law_cycle_times_ordered(es: Seq<(int, Seq<u8>)>, span: int, start: int, len: int, frames: int)
    requires
        beats_sorted(es),
        beats_within(es, span),
        0 <= start < span,
        frames >= 0,
    ensures
        offsets_sorted(cycle_events(es, span, start, len, frames)),
        offsets_within(cycle_events(es, span, start, len, frames), 0, frames + 1),
{
    let occ = occurrences(es, span, -start, len);
    lemma_occurrences_ordered(es, span, -start, len);
    let t = cycle_events(es, span, start, len, frames);
    assert forall|i: int, j: int| #![trigger t[i], t[j]] 0 <= i <= j < t.len() implies t[i].0 <= t[j].0 by {
        lemma_round_time_bounds(occ[i].0, occ[j].0, len, frames);
    }
    assert forall|i: int| 0 <= i < t.len() implies 0 <= #[trigger] t[i].0 < frames + 1 by {
        lemma_round_time_bounds(occ[i].0, occ[i].0, len, frames);
    }
}

/// Tempo does not change what fires: a cycle covering the same beats
/// emits the same messages in the same order whatever number of frames
/// it lasts; only their frame offsets differ.
pub proof fn law_tempo_independent(es: Seq<(int, Seq<u8>)>, span: int, start: int, len: int, frames1: int, frames2: int)
    ensures
        cycle_events(es, span, start, len, frames1).len() == cycle_events(es, span, start, len, frames2).len(),
        forall|i: int| 0 <= i < cycle_events(es, span, start, len, frames1).len()
            ==> #[trigger] cycle_events(es, span, start, len, frames1)[i].1 == cycle_events(es, span, start, len, frames2)[i].1,
{
}

/// Number of firing slots among the first `n`:
/// `ceil((n - skip) / every)` once `n` passes `skip`.
pub open spec fn pattern_len(every: int, skip: int, n: int) -> int {
    if n > skip {
        (n - skip + every - 1) / every
    } else {
        0
    }
}

/// A pattern adds as many events as it has firing slots, whatever the
/// tempo: the size of a sequence depends on its notes only.
pub proof fn law_pattern_len(span: int, every: int, skip: int, slot: int, offset: int, n: nat)
    requires
        every >= 1,
        skip >= 0,
    ensures
        pattern_beats(span, every, skip, slot, offset, n).len() == pattern_len(every, skip, n as int),
    decreases n,
{
    if n > 0 {
        law_pattern_len(span, every, skip, slot, offset, (n - 1) as nat);
        let k = n - 1;
        if k > skip {
            let m = k - skip;
            vstd::arithmetic::div_mod::lemma_fundamental_div_mod(m, every);
            let q = m / every;
            let r = m % every;
            vstd::arithmetic::div_mod::lemma_mod_pos_bound(m, every);
            assert((m + every) == (q + 1) * every + r) by (nonlinear_arith)
                requires
                    m == every * q + r,
            ;
            vstd::arithmetic::div_mod::lemma_fundamental_div_mod_converse(m + every, every, q + 1, r);
            if r == 0 {
                assert((m + every - 1) == q * every + (every - 1)) by (nonlinear_arith)
                    requires
                        m == every * q + r,
                        r == 0,
                ;
                vstd::arithmetic::div_mod::lemma_fundamental_div_mod_converse(m + every - 1, every, q, every - 1);
            } else {
                assert((m + every - 1) == (q + 1) * every + (r - 1)) by (nonlinear_arith)
                    requires
                        m == every * q + r,
                ;
                vstd::arithmetic::div_mod::lemma_fundamental_div_mod_converse(m + every - 1, every, q + 1, r - 1);
            }
        } else if k == skip {
            vstd::arithmetic::div_mod::lemma_fundamental_div_mod_converse(every, every, 1, 0);
            vstd::arithmetic::div_mod::lemma_fundamental_div_mod_converse(0, every, 0, 0);
        }
    }
}

/// An offset moves every event of a pattern by that many ticks around
/// the span: the pattern with an offset is the pattern without one, each
/// beat shifted by the offset and wrapped (positive offsets delay,
/// negative ones anticipate), and offsets a whole span apart give the
/// same events.
pub proof fn law_offset_shifts_pattern(span: int, every: int, skip: int, slot: int, offset: int, n: nat)
    requires
        span > 0,
    ensures
        pattern_beats(span, every, skip, slot, offset, n) == pattern_beats(span, every, skip, slot, 0, n).map_values(
            |b: int| (b + offset) % span,
        ),
        pattern_beats(span, every, skip, slot, offset + span, n) == pattern_beats(span, every, skip, slot, offset, n),
    decreases n,
{
    if n > 0 {
        law_offset_shifts_pattern(span, every, skip, slot, offset, (n - 1) as nat);
        let k = n - 1;
        let x = k * slot;
        vstd::arithmetic::div_mod::lemma_add_mod_noop_right(offset, x, span);
        assert((x % span + offset) % span == (x + offset) % span) by {
            assert(offset + x % span == x % span + offset);
            assert(offset + x == x + offset);
        }
        assert(x + 0 == x);
        vstd::arithmetic::div_mod::lemma_mod_add_multiples_vanish(x + offset, span);
        assert(span + (x + offset) == x + (offset + span));
        let p0 = pattern_beats(span, every, skip, slot, 0, (n - 1) as nat);
        let f = |b: int| (b + offset) % span;
        if slot_fires(k, every, skip) {
            assert(p0.push(slot_beat(k, slot, 0, span)).map_values(f) =~= p0.map_values(f).push(f(slot_beat(k, slot, 0, span))));
        }
    }
}

/// The events of a pattern are those of its firing slots and no others:
/// a beat is among the first `n` slots' events exactly when some slot `k`
/// below `n`, at or past the first `skip` slots and a whole number of
/// `every` steps after them, starts there once shifted by the offset and
/// wrapped into the span.
pub proof fn law_pattern_beats_are_firing_slots(
    span: int,
    every: int,
    skip: int,
    slot: int,
    offset: int,
    n: nat,
    b: int,
)
    ensures
        pattern_beats(span, every, skip, slot, offset, n).contains(b) <==> exists|k: int|
            #![trigger (k * slot + offset) % span]
            0 <= k < n && skip <= k && (k - skip) % every == 0 && b == (k * slot + offset) % span,
    decreases n,
{
    if n > 0 {
        law_pattern_beats_are_firing_slots(span, every, skip, slot, offset, (n - 1) as nat, b);
        let prev = pattern_beats(span, every, skip, slot, offset, (n - 1) as nat);
        let k0 = n - 1;
        if slot_fires(k0, every, skip) {
            assert(pattern_beats(span, every, skip, slot, offset, n) == prev.push(slot_beat(k0, slot, offset, span)));
            if pattern_beats(span, every, skip, slot, offset, n).contains(b) {
                let i = choose|i: int| 0 <= i < prev.len() + 1 && prev.push(slot_beat(k0, slot, offset, span))[i] == b;
                if i == prev.len() {
                    assert(0 <= k0 < n && skip <= k0 && (k0 - skip) % every == 0 && b == (k0 * slot + offset) % span);
                } else {
                    assert(prev[i] == b);
                    assert(prev.contains(b));
                }
            }
            if exists|k: int|
                #![trigger (k * slot + offset) % span]
                0 <= k < n && skip <= k && (k - skip) % every == 0 && b == (k * slot + offset) % span {
                let k = choose|k: int|
                    #![trigger (k * slot + offset) % span]
                    0 <= k < n && skip <= k && (k - skip) % every == 0 && b == (k * slot + offset) % span;
                if k == k0 {
                    assert(prev.push(slot_beat(k0, slot, offset, span))[prev.len() as int] == b);
                } else {
                    assert(prev.contains(b));
                    let i = choose|i: int| 0 <= i < prev.len() && prev[i] == b;
                    assert(prev.push(slot_beat(k0, slot, offset, span))[i] == b);
                }
            }
        } else {
            assert(pattern_beats(span, every, skip, slot, offset, n) == prev);
            if exists|k: int|
                #![trigger (k * slot + offset) % span]
                0 <= k < n && skip <= k && (k - skip) % every == 0 && b == (k * slot + offset) % span {
                let k = choose|k: int|
                    #![trigger (k * slot + offset) % span]
                    0 <= k < n && skip <= k && (k - skip) % every == 0 && b == (k * slot + offset) % span;
                assert(k != k0);
                assert(0 <= k < n - 1 && skip <= k && (k - skip) % every == 0 && b == (k * slot + offset) % span);
            }
        }
    }
}

/// The slots that start inside the span are exactly the first
/// `slot_count` ones: slot `k` starts before `span` just when `k` is below
/// the count.
pub proof fn law_slot_count_covers_span(span: int, slot: int, k: int)
    requires
        span > 0,
        slot > 0,
        k >= 0,
    ensures
        k < slot_count(span, slot) <==> k * slot < span,
{
    let c = slot_count(span, slot);
    vstd::arithmetic::div_mod::lemma_fundamental_div_mod(span + slot - 1, slot);
    let r = (span + slot - 1) % slot;
    assert(span + slot - 1 == slot * c + r);
    if k < c {
        assert(k * slot <= (c - 1) * slot) by (nonlinear_arith)
            requires
                k <= c - 1,
                slot > 0,
        ;
        assert((c - 1) * slot == slot * c - slot) by (nonlinear_arith);
    } else {
        assert(k * slot >= c * slot) by (nonlinear_arith)
            requires
                k >= c,
                slot > 0,
        ;
        assert(c * slot == slot * c) by (nonlinear_arith);
    }
}
} // verus!
