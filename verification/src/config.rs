//! Turning the note entries of a sequence's configuration into events.
//!
//! Each entry of a sequence names a note, a note value (`beat_value`,
//! in ticks), and optionally a tuplet, a repeat interval (`every`), a
//! number of leading slots to skip (`skip`) and an offset. The entries
//! are read from the configuration text in [`crate::yaml_doc`]; here they
//! are checked and applied.

use vstd::prelude::*;
use crate::beat_values::{Ticks, tuplet, tuplet_ticks};
use crate::note_map::{get_bytes_for_note_str, note_number, note_on_message};
use crate::sequencer::{clone_bytes, Sequence};
use crate::timeline::{insert_beats, pattern_beats, slot_count};

verus! {

/// An integer-valued field of a note entry as the configuration holds it.
pub enum IntField {
    /// The key is absent.
    Absent,
    /// The key holds this integer.
    Int(i64),
    /// The key holds something that is not an integer.
    NotInt,
}

/// The note value of an entry.
#[derive(Debug, PartialEq, Eq, Structural)]
pub enum NoteValue {
    /// This many ticks; zero for a value that is not positive.
    Ticks(Ticks),
    /// An infinite number of beats: the entry adds no events.
    Unbounded,
}

/// One note entry of a sequence.
pub struct NoteEntry {
    /// The note name (`"C4"`, `"C#/Db-1"`, ...), if the entry holds a string.
    pub note: Option<String>,
    /// The note value, if the entry holds a number.
    pub beat_value: Option<NoteValue>,
    pub tuplet: IntField,
    pub every: IntField,
    pub skip: IntField,
    /// Shift of every hit, in ticks; zero when absent.
    pub offset: Option<i64>,
}

/// Why a note entry cannot be applied.
#[derive(Debug, PartialEq, Eq, Structural)]
pub enum ConfigError {
    /// `beat_value` is absent or not a number.
    BeatValueInvalid,
    /// `tuplet` is present but not an integer.
    TupletInvalid,
    /// `every` is present but not an integer.
    EveryInvalid,
    /// `skip` is present but not an integer.
    SkipInvalid,
    /// `note` is absent or not a string.
    NoteInvalid,
    /// `note` names no MIDI note.
    UnknownNote,
    /// The note value (after the tuplet) is not positive.
    BeatValueNotPositive,
    /// `every` is zero.
    EveryZero,
    /// The configuration has no sequence of that name (neither a list of
    /// entries nor a mapping with a `notes` list).
    SequenceNotFound,
    /// A note entry is not a mapping.
    EntryNotMapping,
    /// `bars` is present but not an integer from 1 to `u32::MAX`.
    BarsInvalid,
}

/// A note entry, checked: the slot length (`None` when an unbounded note
/// value or a zero tuplet leaves no slot inside the sequence), the
/// repeat interval, the skipped slots, the Note-On bytes and the offset.
struct NotePattern {
    slot: Option<Ticks>,
    every: u16,
    skip: u16,
    bytes: Vec<u8>,
    offset: i64,
}

/// The model of a checked entry: `(slot, every, skip, bytes, offset)`.
spec fn pattern_view(p: NotePattern) -> (Option<int>, int, int, Seq<u8>, int) {
    (
        match p.slot {
            Some(s) => Some(s as int),
            None => None,
        },
        p.every as int,
        p.skip as int,
        p.bytes@,
        p.offset as int,
    )
}

/// An integer field read as `u16` (keeping the low 16 bits), with a
/// default when absent.
pub open spec fn int_field(f: IntField, default: int) -> Option<int> {
    match f {
        IntField::Absent => Some(default),
        IntField::Int(v) => Some((v as u16) as int),
        IntField::NotInt => None,
    }
}

/// The slot length an entry asks for: `None` when the entry adds no
/// events (an unbounded note value, or a zero tuplet); a tuplet longer
/// than ticks can hold is held as the longest.
pub open spec fn entry_slot(e: NoteEntry) -> Result<Option<int>, ConfigError> {
    match e.tuplet {
        IntField::NotInt => Err(ConfigError::TupletInvalid),
        _ => match e.beat_value->0 {
            NoteValue::Unbounded => Ok(None),
            NoteValue::Ticks(b) => match e.tuplet {
                IntField::Int(t) => {
                    let n = (t as u16) as int;
                    if n == 0 {
                        Ok(None)
                    } else if tuplet_ticks(b as int, n) > u64::MAX {
                        Ok(Some(u64::MAX as int))
                    } else {
                        Ok(Some(tuplet_ticks(b as int, n)))
                    }
                },
                _ => Ok(Some(b as int)),
            },
        },
    }
}

/// An entry checked in the order the fields are read: note value,
/// tuplet, `every`, `skip`, note, then the positivity of the note value
/// and of `every`.
pub open spec fn resolve_entry(e: NoteEntry) -> Result<(Option<int>, int, int, Seq<u8>, int), ConfigError> {
    if e.beat_value is None {
        Err(ConfigError::BeatValueInvalid)
    } else if entry_slot(e) is Err {
        Err(entry_slot(e)->Err_0)
    } else if int_field(e.every, 1) is None {
        Err(ConfigError::EveryInvalid)
    } else if int_field(e.skip, 0) is None {
        Err(ConfigError::SkipInvalid)
    } else if e.note is None {
        Err(ConfigError::NoteInvalid)
    } else if note_number(e.note->0@) is None {
        Err(ConfigError::UnknownNote)
    } else if entry_slot(e)->Ok_0 == Some(0int) {
        Err(ConfigError::BeatValueNotPositive)
    } else if int_field(e.every, 1)->0 == 0 {
        Err(ConfigError::EveryZero)
    } else {
        Ok(
            (
                entry_slot(e)->Ok_0,
                int_field(e.every, 1)->0,
                int_field(e.skip, 0)->0,
                note_on_message(note_number(e.note->0@)->0, 127),
                match e.offset {
                    Some(o) => o as int,
                    None => 0,
                },
            ),
        )
    }
}

/// All entries checked; the error of the first entry that fails.
pub open spec fn resolve_entries(es: Seq<NoteEntry>) -> Result<Seq<(Option<int>, int, int, Seq<u8>, int)>, ConfigError>
    decreases es.len(),
{
    if es.len() == 0 {
        Ok(Seq::empty())
    } else {
        match resolve_entries(es.drop_last()) {
            Err(x) => Err(x),
            Ok(ps) => match resolve_entry(es.last()) {
                Err(x) => Err(x),
                Ok(p) => Ok(ps.push(p)),
            },
        }
    }
}

/// A checked entry keeps what the entry says, each field on its own:
/// its offset (0 when absent) whatever its tuplet or note value, its
/// `skip` and `every` counted in slots whatever the slot length (low 16
/// bits; 0 and 1 when absent), the Note-On message of its note at full
/// velocity, and, without a tuplet, its note value as the slot; with a
/// tuplet of `n`, `n` slots fill two note values to within `n / 2` ticks.
pub proof fn law_checked_entry_keeps_its_fields(e: NoteEntry)
    requires
        resolve_entry(e) is Ok,
    ensures
        ({
            let p = resolve_entry(e)->Ok_0;
            &&& p.4 == match e.offset {
                Some(o) => o as int,
                None => 0,
            }
            &&& p.2 == match e.skip {
                IntField::Int(v) => (v as u16) as int,
                _ => 0,
            }
            &&& p.1 == match e.every {
                IntField::Int(v) => (v as u16) as int,
                _ => 1,
            }
            &&& p.1 >= 1
            &&& e.note is Some && p.3 == note_on_message(note_number(e.note->0@)->0, 127)
            &&& (e.beat_value matches Some(NoteValue::Ticks(b)) ==> ((e.tuplet is Absent) ==> p.0 == Some(b as int)))
            &&& (e.beat_value matches Some(NoteValue::Unbounded) ==> (p.0 is None))
            &&& (e.beat_value matches Some(NoteValue::Ticks(b)) ==> (e.tuplet matches IntField::Int(t) ==> ({
                let n = (t as u16) as int;
                &&& (n == 0 ==> (p.0 is None))
                &&& (n > 0 ==> (p.0 matches Some(slot) && (slot == u64::MAX || -n <= 2 * n * slot - 4 * b <= n)))
            })))
            &&& p.0 != Some(0int)
        }),
{
    if let Some(NoteValue::Ticks(b)) = e.beat_value {
        if let IntField::Int(t) = e.tuplet {
            let n = (t as u16) as int;
            if n > 0 {
                crate::beat_values::law_tuplet_fills_two_notes(b as int, n);
            }
        }
    }
}

/// An entry adds exactly its pattern: applying one checked entry adds
/// the events of its firing slots, as [`Sequence::add_notes_with_offset`]
/// does with the entry's slot, `every`, `skip` and offset; an entry with no
/// slot adds nothing.
pub proof fn law_one_entry_adds_its_pattern(
    events: Seq<(int, Seq<u8>)>,
    span: int,
    p: (Option<int>, int, int, Seq<u8>, int),
)
    ensures
        apply_patterns(events, span, seq![p]) == match p.0 {
            None => events,
            Some(slot) => insert_beats(
                events,
                pattern_beats(span, p.1, p.2, slot, p.4, slot_count(span, slot) as nat),
                p.3,
            ),
        },
{
    let ps = seq![p];
    assert(ps.drop_last() =~= Seq::<(Option<int>, int, int, Seq<u8>, int)>::empty());
    assert(apply_patterns(events, span, ps.drop_last()) == events);
    assert(ps.last() == p);
}

/// The events of a sequence of `span` ticks after adding the checked
/// entries `ps`, in order, to the events `events`.
pub open spec fn apply_patterns(
    events: Seq<(int, Seq<u8>)>,
    span: int,
    ps: Seq<(Option<int>, int, int, Seq<u8>, int)>,
) -> Seq<(int, Seq<u8>)>
    decreases ps.len(),
{
    if ps.len() == 0 {
        events
    } else {
        let prev = apply_patterns(events, span, ps.drop_last());
        let p = ps.last();
        match p.0 {
            None => prev,
            Some(slot) => insert_beats(
                prev,
                pattern_beats(span, p.1, p.2, slot, p.4, slot_count(span, slot) as nat),
                p.3,
            ),
        }
    }
}

fn int_field_exec(f: &IntField, default: u16) -> (r: Option<u16>)
    ensures
        match r {
            Some(v) => int_field(*f, default as int) == Some(v as int),
            None => int_field(*f, default as int) is None,
        },
{
    match f {
        IntField::Absent => Some(default),
        IntField::Int(v) => Some(*v as u16),
        IntField::NotInt => None,
    }
}

/// Check one note entry.
fn resolve_entry_exec(e: &NoteEntry) -> (r: Result<NotePattern, ConfigError>)
    ensures
        match r {
            Ok(p) => resolve_entry(*e) == Ok::<_, ConfigError>(pattern_view(p)) && p.every >= 1
                && p.slot != Some(0u64),
            Err(x) => resolve_entry(*e) == Err::<(Option<int>, int, int, Seq<u8>, int), _>(x),
        },
{
    let bv: Option<Ticks> = match &e.beat_value {
        None => return Err(ConfigError::BeatValueInvalid),
        Some(NoteValue::Unbounded) => None,
        Some(NoteValue::Ticks(b)) => Some(*b),
    };
    let slot: Option<Ticks> = match &e.tuplet {
        IntField::NotInt => return Err(ConfigError::TupletInvalid),
        IntField::Absent => bv,
        IntField::Int(t) => match bv {
            None => None,
            Some(b) => {
                let n = *t as u16;
                if n == 0 {
                    None
                } else {
                    match tuplet(b, n) {
                        Some(v) => Some(v),
                        None => Some(u64::MAX),
                    }
                }
            },
        },
    };
    let every = match int_field_exec(&e.every, 1) {
        Some(v) => v,
        None => return Err(ConfigError::EveryInvalid),
    };
    let skip = match int_field_exec(&e.skip, 0) {
        Some(v) => v,
        None => return Err(ConfigError::SkipInvalid),
    };
    let name = match &e.note {
        Some(s) => s.clone(),
        None => return Err(ConfigError::NoteInvalid),
    };
    let bytes = match get_bytes_for_note_str(name) {
        Some(b) => b,
        None => return Err(ConfigError::UnknownNote),
    };
    if slot == Some(0u64) {
        return Err(ConfigError::BeatValueNotPositive);
    }
    if every == 0 {
        return Err(ConfigError::EveryZero);
    }
    let offset = match e.offset {
        Some(o) => o,
        None => 0,
    };
    let p = NotePattern { slot, every, skip, bytes, offset };
    proof {
        assert(entry_slot(*e) == Ok::<_, ConfigError>(pattern_view(p).0));
    }
    Ok(p)
}

/// Apply the note entries of a sequence, in order. Every entry is
/// checked first: if one fails, its error (the first in entry order) is
/// returned and the sequence is left as it was. Otherwise each entry
/// adds its pattern of events (none for an entry whose unbounded note
/// value or zero tuplet leaves no slot inside the sequence).
pub fn apply_sequence(seq: &mut Sequence, entries: &Vec<NoteEntry>) -> (r: Result<(), ConfigError>)
    requires
        old(seq).wf(),
    ensures
        final(seq).wf(),
        final(seq).spec_beats_per_bar() == old(seq).spec_beats_per_bar(),
        final(seq).spec_bars() == old(seq).spec_bars(),
        match resolve_entries(entries@) {
            Err(x) => r == Err::<(), ConfigError>(x) && final(seq).event_seq() == old(seq).event_seq(),
            Ok(ps) => r is Ok && final(seq).event_seq() == apply_patterns(
                old(seq).event_seq(),
                old(seq).spec_span(),
                ps,
            ),
        },
{
    let mut patterns: Vec<NotePattern> = Vec::new();
    let mut i: usize = 0;
    proof {
        assert(entries@.take(0) =~= Seq::<NoteEntry>::empty());
        assert(patterns@.map_values(|p: NotePattern| pattern_view(p)) =~= Seq::<(Option<int>, int, int, Seq<u8>, int)>::empty());
    }
    while i < entries.len()
        invariant
            i <= entries.len(),
            *seq == *old(seq),
            seq.wf(),
            patterns@.len() == i,
            forall|k: int| 0 <= k < patterns@.len() ==> (#[trigger] patterns@[k]).every >= 1,
            forall|k: int| 0 <= k < patterns@.len() ==> (#[trigger] patterns@[k]).slot != Some(0u64),
            resolve_entries(entries@.take(i as int)) == Ok::<_, ConfigError>(
                patterns@.map_values(|p: NotePattern| pattern_view(p)),
            ),
        decreases entries.len() - i,
    {
        let ghost prev = patterns@;
        proof {
            assert(entries@.take(i + 1).drop_last() =~= entries@.take(i as int));
            assert(entries@.take(i + 1).last() == entries@[i as int]);
        }
        match resolve_entry_exec(&entries[i]) {
            Ok(p) => {
                patterns.push(p);
                proof {
                    assert(patterns@.map_values(|p: NotePattern| pattern_view(p)) =~= prev.map_values(
                        |p: NotePattern| pattern_view(p),
                    ).push(pattern_view(p)));
                }
            },
            Err(x) => {
                proof {
                    lemma_resolve_entries_first_error(entries@, i as int);
                }
                return Err(x);
            },
        }
        i = i + 1;
    }
    proof {
        assert(entries@.take(entries@.len() as int) =~= entries@);
    }
    let ghost start_events = seq.event_seq();
    let ghost span = seq.spec_span();
    let ghost views = patterns@.map_values(|p: NotePattern| pattern_view(p));
    let mut j: usize = 0;
    proof {
        assert(views.take(0) =~= Seq::<(Option<int>, int, int, Seq<u8>, int)>::empty());
    }
    while j < patterns.len()
        invariant
            j <= patterns.len(),
            seq.wf(),
            seq.spec_beats_per_bar() == old(seq).spec_beats_per_bar(),
            seq.spec_bars() == old(seq).spec_bars(),
            span == seq.spec_span(),
            start_events == old(seq).event_seq(),
            views == patterns@.map_values(|p: NotePattern| pattern_view(p)),
            forall|k: int| 0 <= k < patterns@.len() ==> (#[trigger] patterns@[k]).every >= 1,
            forall|k: int| 0 <= k < patterns@.len() ==> (#[trigger] patterns@[k]).slot != Some(0u64),
            seq.event_seq() == apply_patterns(start_events, span, views.take(j as int)),
        decreases patterns.len() - j,
    {
        proof {
            assert(views.take(j + 1).drop_last() =~= views.take(j as int));
            assert(views.take(j + 1).last() == pattern_view(patterns@[j as int]));
        }
        let p = &patterns[j];
        match p.slot {
            Some(slot) => {
                seq.add_notes_with_offset(clone_bytes(&p.bytes), p.every, p.skip, slot, p.offset);
            },
            None => {},
        }
        j = j + 1;
    }
    proof {
        assert(views.take(patterns@.len() as int) =~= views);
    }
    Ok(())
}

/// When every entry before `i` passes and entry `i` fails, the entries
/// as a whole fail with entry `i`'s error.
proof fn lemma_resolve_entries_first_error(es: Seq<NoteEntry>, i: int)
    requires
        0 <= i < es.len(),
        resolve_entries(es.take(i)) is Ok,
        resolve_entry(es[i]) is Err,
    ensures
        resolve_entries(es) == Err::<Seq<(Option<int>, int, int, Seq<u8>, int)>, _>(resolve_entry(es[i])->Err_0),
    decreases es.len(),
{
    if i == es.len() - 1 {
        assert(es.drop_last() =~= es.take(i));
    } else {
        assert(es.drop_last().take(i) =~= es.take(i));
        assert(es.drop_last()[i] == es[i]);
        lemma_resolve_entries_first_error(es.drop_last(), i);
    }
}

} // verus!
