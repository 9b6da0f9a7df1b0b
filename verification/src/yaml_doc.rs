//! Configuration documents: YAML text parsed by `yaml_rust` and read
//! into note entries.
//!
//! A configuration is a YAML document whose top-level keys name
//! sequences. A sequence is either a list of note entries (one bar), or a
//! mapping with `notes:` (the list) and an optional `bars:` (default 1).

use vstd::prelude::*;
use crate::beat_values::TICKS_PER_BEAT;
use crate::decimal::{decimal_ticks, is_infinity_word, is_positive_infinity, parse_decimal_ticks, saturate};
use crate::config::{ConfigError, IntField, NoteEntry, NoteValue};

verus! {

#[verifier::external_type_specification]
#[verifier::external_body]
pub struct ExYaml(yaml_rust::Yaml);

/// A YAML node, as `yaml_rust` builds it. A mapping is held as its
/// key/value pairs in insertion order (its keys are distinct).
pub enum YamlValue {
    /// A float, kept as written.
    Real(String),
    Integer(i64),
    Str(String),
    Boolean(bool),
    Array(Vec<YamlValue>),
    Hash(Vec<(YamlValue, YamlValue)>),
    Alias(usize),
    Null,
    /// A missing or malformed node.
    BadValue,
}

/// The documents that `yaml_rust` reads from `text`, or `None` when it
/// reports a scan error.
pub uninterp spec fn yaml_documents(text: Seq<char>) -> Option<Seq<YamlValue>>;

/// `yaml_rust::YamlLoader::load_from_str`: the documents of `text`, each
/// node converted one for one into a [`YamlValue`]; `None` when the
/// loader returns an error. The result depends on the text alone and is
/// named [`yaml_documents`]; nothing more is claimed of it.
#[verifier::external_body]
pub fn load_yaml(text: &str) -> (r: Option<Vec<YamlValue>>)
    ensures
        match r {
            Some(docs) => yaml_documents(text@) == Some(docs@),
            None => yaml_documents(text@) is None,
        },
{
    match yaml_rust::YamlLoader::load_from_str(text) {
        Ok(docs) => Some(docs.iter().map(yaml_value).collect()),
        Err(_) => None,
    }
}

/// A `yaml_rust` node converted variant for variant into a [`YamlValue`];
/// used only by [`load_yaml`], and claims nothing.
#[verifier::external_body]
fn yaml_value(y: &yaml_rust::Yaml) -> YamlValue {
    match y {
        yaml_rust::Yaml::Real(s) => YamlValue::Real(s.clone()),
        yaml_rust::Yaml::Integer(i) => YamlValue::Integer(*i),
        yaml_rust::Yaml::String(s) => YamlValue::Str(s.clone()),
        yaml_rust::Yaml::Boolean(b) => YamlValue::Boolean(*b),
        yaml_rust::Yaml::Array(v) => YamlValue::Array(v.iter().map(yaml_value).collect()),
        yaml_rust::Yaml::Hash(h) => YamlValue::Hash(h.iter().map(|(k, v)| (yaml_value(k), yaml_value(v))).collect()),
        yaml_rust::Yaml::Alias(a) => YamlValue::Alias(*a),
        yaml_rust::Yaml::Null => YamlValue::Null,
        yaml_rust::Yaml::BadValue => YamlValue::BadValue,
    }
}

/// The first document of `text`, if it parses and has one.
pub open spec fn spec_first_document(text: Seq<char>) -> Option<YamlValue> {
    match yaml_documents(text) {
        Some(docs) => if docs.len() > 0 {
            Some(docs[0])
        } else {
            None
        },
        None => None,
    }
}

/// The first document of the YAML text `text`; `None` when the text does
/// not parse or holds no document.
pub fn first_document(text: &str) -> (r: Option<YamlValue>)
    ensures
        r == spec_first_document(text@),
{
    match load_yaml(text) {
        Some(mut docs) => {
            if docs.len() > 0 {
                let d = docs.swap_remove(0);
                Some(d)
            } else {
                None
            }
        },
        None => None,
    }
}

/// The value under string key `key` among `pairs`; `BadValue` when absent.
pub open spec fn pairs_get(pairs: Seq<(YamlValue, YamlValue)>, key: Seq<char>) -> YamlValue
    decreases pairs.len(),
{
    if pairs.len() == 0 {
        YamlValue::BadValue
    } else {
        match pairs[0].0 {
            YamlValue::Str(k) => if k@ == key {
                pairs[0].1
            } else {
                pairs_get(pairs.drop_first(), key)
            },
            _ => pairs_get(pairs.drop_first(), key),
        }
    }
}

/// `v[key]` as `yaml_rust` indexes a node by a string: the value under
/// that key of a mapping, `BadValue` for a missing key or another node.
pub open spec fn yaml_index(v: YamlValue, key: Seq<char>) -> YamlValue {
    match v {
        YamlValue::Hash(pairs) => pairs_get(pairs@, key),
        _ => YamlValue::BadValue,
    }
}

/// `v[key]`, by reference; `None` stands for `BadValue` when the key is
/// absent.
pub fn yaml_get<'a>(v: &'a YamlValue, key: &str) -> (r: Option<&'a YamlValue>)
    ensures
        match r {
            Some(x) => *x == yaml_index(*v, key@),
            None => yaml_index(*v, key@) == YamlValue::BadValue,
        },
{
    match v {
        YamlValue::Hash(pairs) => {
            let k: String = key.to_owned();
            let mut i: usize = 0;
            proof {
                assert(pairs@.skip(0) =~= pairs@);
            }
            while i < pairs.len()
                invariant
                    i <= pairs@.len(),
                    k@ == key@,
                    yaml_index(*v, key@) == pairs_get(pairs@, key@),
                    pairs_get(pairs@, key@) == pairs_get(pairs@.skip(i as int), key@),
                decreases pairs.len() - i,
            {
                proof {
                    assert(pairs@.skip(i as int).drop_first() =~= pairs@.skip(i + 1));
                    assert(pairs@.skip(i as int)[0] == pairs@[i as int]);
                }
                let ghost rest = pairs@.skip(i as int);
                let matches = match &pairs[i].0 {
                    YamlValue::Str(s) => *s == k,
                    _ => false,
                };
                proof {
                    assert(matches <==> (pairs@[i as int].0 matches YamlValue::Str(s) && s@ == key@));
                }
                if matches {
                    assert(pairs_get(rest, key@) == pairs@[i as int].1);
                    return Some(&pairs[i].1);
                }
                i = i + 1;
            }
            proof {
                assert(pairs@.skip(i as int).len() == 0);
            }
            None
        },
        _ => None,
    }
}

/// An integer field of an entry: absent, an integer, or something else.
pub open spec fn int_field_of(v: YamlValue) -> IntField {
    match v {
        YamlValue::BadValue => IntField::Absent,
        YamlValue::Integer(i) => IntField::Int(i),
        _ => IntField::NotInt,
    }
}

/// A number of beats written as a YAML float, in ticks.
pub open spec fn real_ticks(v: YamlValue) -> Option<int> {
    match v {
        YamlValue::Real(s) => decimal_ticks(s@),
        _ => None,
    }
}

/// An offset in ticks: a YAML float of beats, or an integer of whole
/// beats.
pub open spec fn offset_ticks(v: YamlValue) -> Option<int> {
    match v {
        YamlValue::Integer(i) => Some(i * TICKS_PER_BEAT),
        _ => real_ticks(v),
    }
}

/// `v` held in [`Ticks`]: not positive becomes 0, too large the largest.
pub open spec fn clamp_ticks(v: int) -> u64 {
    if v <= 0 {
        0
    } else if v > u64::MAX {
        u64::MAX
    } else {
        v as u64
    }
}

/// `v` held in `i64`, saturating.
pub open spec fn clamp_signed(v: int) -> i64 {
    if v < i64::MIN {
        i64::MIN
    } else if v > i64::MAX {
        i64::MAX
    } else {
        v as i64
    }
}

/// The note entry that the mapping `e` describes: `note` as a string;
/// `beat_value` as a float of beats (in ticks, not below zero, at most
/// `u64::MAX`; positive infinity is unbounded); `offset` as a float or a
/// whole number of beats (in ticks, limited to `i64`); and the integer
/// fields `tuplet`, `every` and `skip`.
pub open spec fn note_entry_of(e: YamlValue) -> NoteEntry {
    NoteEntry {
        note: match yaml_index(e, "note"@) {
            YamlValue::Str(s) => Some(s),
            _ => None,
        },
        beat_value: match yaml_index(e, "beat_value"@) {
            YamlValue::Real(s) => if is_positive_infinity(s@) {
                Some(NoteValue::Unbounded)
            } else {
                match decimal_ticks(s@) {
                    Some(v) => Some(NoteValue::Ticks(clamp_ticks(v))),
                    None => None,
                }
            },
            _ => None,
        },
        tuplet: int_field_of(yaml_index(e, "tuplet"@)),
        every: int_field_of(yaml_index(e, "every"@)),
        skip: int_field_of(yaml_index(e, "skip"@)),
        offset: match offset_ticks(yaml_index(e, "offset"@)) {
            Some(v) => Some(clamp_signed(v)),
            None => None,
        },
    }
}

/// Sequence `name` of the configuration `doc`: its bars and its entries.
/// A list is a one-bar sequence; a mapping gives its entries under
/// `notes` and its bars under `bars` (1 when absent; `BarsInvalid` unless
/// an integer from 1 to `u32::MAX`).
pub open spec fn sequence_of(doc: YamlValue, name: Seq<char>) -> Result<(int, Seq<YamlValue>), ConfigError> {
    let sq = yaml_index(doc, name);
    match sq {
        YamlValue::Array(items) => Ok((1, items@)),
        _ => match yaml_index(sq, "notes"@) {
            YamlValue::Array(items) => match yaml_index(sq, "bars"@) {
                YamlValue::BadValue => Ok((1, items@)),
                YamlValue::Integer(b) => if 1 <= b <= u32::MAX {
                    Ok((b as int, items@))
                } else {
                    Err(ConfigError::BarsInvalid)
                },
                _ => Err(ConfigError::BarsInvalid),
            },
            _ => Err(ConfigError::SequenceNotFound),
        },
    }
}

fn int_field_exec(v: Option<&YamlValue>) -> (r: IntField)
    ensures
        r == int_field_of(match v {
            Some(x) => *x,
            None => YamlValue::BadValue,
        }),
{
    match v {
        None => IntField::Absent,
        Some(YamlValue::BadValue) => IntField::Absent,
        Some(YamlValue::Integer(i)) => IntField::Int(*i),
        Some(_) => IntField::NotInt,
    }
}

fn real_ticks_exec(v: Option<&YamlValue>) -> (r: Option<i128>)
    ensures
        match real_ticks(match v {
            Some(x) => *x,
            None => YamlValue::BadValue,
        }) {
            Some(w) => r == Some(saturate(w) as i128),
            None => r is None,
        },
{
    match v {
        Some(YamlValue::Real(s)) => parse_decimal_ticks(s),
        _ => None,
    }
}

/// The note entry that the mapping `e` describes; see [`note_entry_of`].
pub fn note_entry(e: &YamlValue) -> (r: NoteEntry)
    ensures
        r == note_entry_of(*e),
{
    let note = match yaml_get(e, "note") {
        Some(YamlValue::Str(s)) => Some(s.clone()),
        _ => None,
    };
    let beat_field = yaml_get(e, "beat_value");
    let unbounded = match beat_field {
        Some(YamlValue::Real(s)) => is_infinity_word(s),
        _ => false,
    };
    let beat_value = if unbounded {
        Some(NoteValue::Unbounded)
    } else {
        match real_ticks_exec(beat_field) {
            Some(t) => {
                if t <= 0 {
                    Some(NoteValue::Ticks(0u64))
                } else if t > u64::MAX as i128 {
                    Some(NoteValue::Ticks(u64::MAX))
                } else {
                    Some(NoteValue::Ticks(t as u64))
                }
            },
            None => None,
        }
    };
    let offset_field = yaml_get(e, "offset");
    let offset_raw: Option<i128> = match offset_field {
        Some(YamlValue::Integer(i)) => Some((*i as i128) * (TICKS_PER_BEAT as i128)),
        _ => real_ticks_exec(offset_field),
    };
    let offset = match offset_raw {
        Some(t) => {
            if t < i64::MIN as i128 {
                Some(i64::MIN)
            } else if t > i64::MAX as i128 {
                Some(i64::MAX)
            } else {
                Some(t as i64)
            }
        },
        None => None,
    };
    NoteEntry {
        note,
        beat_value,
        tuplet: int_field_exec(yaml_get(e, "tuplet")),
        every: int_field_exec(yaml_get(e, "every")),
        skip: int_field_exec(yaml_get(e, "skip")),
        offset,
    }
}

/// The bars and note entries of sequence `seq_name` in the configuration
/// `doc` (see [`sequence_of`] and [`note_entry_of`]);
/// `SequenceNotFound` when there is no such sequence, `EntryNotMapping`
/// when one of its entries is not a mapping.
pub fn sequence_entries(doc: &YamlValue, seq_name: &str) -> (r: Result<(u32, Vec<NoteEntry>), ConfigError>)
    ensures
        match sequence_of(*doc, seq_name@) {
            Err(x) => r == Err::<(u32, Vec<NoteEntry>), ConfigError>(x),
            Ok(p) => if exists|i: int| 0 <= i < p.1.len() && !(p.1[i] is Hash) {
                r == Err::<(u32, Vec<NoteEntry>), ConfigError>(ConfigError::EntryNotMapping)
            } else {
                r matches Ok(q) && q.0 as int == p.0 && q.1@.len() == p.1.len() && forall|i: int|
                    0 <= i < p.1.len() ==> q.1@[i] == note_entry_of(#[trigger] p.1[i])
            },
        },
{
    let sq = yaml_get(doc, seq_name);
    let ghost sqv = match sq {
        Some(x) => *x,
        None => YamlValue::BadValue,
    };
    let (bars, items): (u32, &Vec<YamlValue>) = match sq {
        Some(YamlValue::Array(items)) => (1, items),
        _ => {
            let notes = match sq {
                Some(x) => yaml_get(x, "notes"),
                None => None,
            };
            proof {
                if sq is None {
                    assert(yaml_index(YamlValue::BadValue, "notes"@) == YamlValue::BadValue);
                }
            }
            match notes {
                Some(YamlValue::Array(items)) => {
                    let bars_field = match sq {
                        Some(x) => yaml_get(x, "bars"),
                        None => None,
                    };
                    let b: u32 = match bars_field {
                        None => 1,
                        Some(YamlValue::BadValue) => 1,
                        Some(YamlValue::Integer(b)) => {
                            if 1 <= *b && *b <= u32::MAX as i64 {
                                *b as u32
                            } else {
                                return Err(ConfigError::BarsInvalid);
                            }
                        },
                        Some(_) => return Err(ConfigError::BarsInvalid),
                    };
                    (b, items)
                },
                _ => return Err(ConfigError::SequenceNotFound),
            }
        },
    };
    let ghost p = sequence_of(*doc, seq_name@)->Ok_0;
    assert(p.1 == items@ && p.0 == bars as int);
    assert(sequence_of(*doc, seq_name@) == Ok::<(int, Seq<YamlValue>), ConfigError>(p));
    let mut entries: Vec<NoteEntry> = Vec::new();
    let mut i: usize = 0;
    while i < items.len()
        invariant
            i <= items@.len(),
            p.1 == items@,
            sequence_of(*doc, seq_name@) == Ok::<(int, Seq<YamlValue>), ConfigError>(p),
            p.0 == bars as int,
            entries@.len() == i,
            forall|k: int| 0 <= k < i ==> (#[trigger] items@[k]) is Hash,
            forall|k: int| 0 <= k < i ==> entries@[k] == note_entry_of(#[trigger] items@[k]),
        decreases items.len() - i,
    {
        match &items[i] {
            YamlValue::Hash(_) => {},
            _ => {
                assert(!(p.1[i as int] is Hash));
                return Err(ConfigError::EntryNotMapping);
            },
        }
        entries.push(note_entry(&items[i]));
        i = i + 1;
    }
    Ok((bars, entries))
}

/// The string keys among `pairs`, in order.
pub open spec fn string_keys(pairs: Seq<(YamlValue, YamlValue)>) -> Seq<Seq<char>>
    decreases pairs.len(),
{
    if pairs.len() == 0 {
        Seq::empty()
    } else {
        let rest = string_keys(pairs.drop_last());
        match pairs.last().0 {
            YamlValue::Str(k) => rest.push(k@),
            _ => rest,
        }
    }
}

/// The names of the sequences of the configuration `doc`: its string
/// keys, in order (none when it is not a mapping).
pub fn sequence_names(doc: &YamlValue) -> (r: Vec<String>)
    ensures
        r@.map_values(|s: String| s@) == (match *doc {
            YamlValue::Hash(pairs) => string_keys(pairs@),
            _ => Seq::<Seq<char>>::empty(),
        }),
{
    let mut names: Vec<String> = Vec::new();
    match doc {
        YamlValue::Hash(pairs) => {
            let mut i: usize = 0;
            while i < pairs.len()
                invariant
                    i <= pairs@.len(),
                    names@.map_values(|s: String| s@) == string_keys(pairs@.take(i as int)),
                decreases pairs.len() - i,
            {
                let ghost prev = names@;
                proof {
                    assert(pairs@.take(i + 1).drop_last() =~= pairs@.take(i as int));
                    assert(pairs@.take(i + 1).last() == pairs@[i as int]);
                }
                match &pairs[i].0 {
                    YamlValue::Str(k) => {
                        names.push(k.clone());
                        assert(names@.map_values(|s: String| s@) =~= prev.map_values(|s: String| s@).push(k@));
                    },
                    _ => {},
                }
                i = i + 1;
            }
            assert(pairs@.take(pairs@.len() as int) =~= pairs@);
        },
        _ => {
            assert(names@.map_values(|s: String| s@) =~= Seq::<Seq<char>>::empty());
        },
    }
    names
}

} // verus!
