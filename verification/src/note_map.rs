//! MIDI Note-On messages and note names.
//!
//! Notes are named as `wmidi` names them: a pitch class (`C`, `C#/Db`,
//! `D`, `D#/Eb`, `E`, `F`, `F#/Gb`, `G`, `G#/Ab`, `A`, `A#/Bb`, `B`)
//! followed by the octave, from `C-1` (MIDI note 0) to `G9` (127).

use vstd::prelude::*;

verus! {

/// The velocity of every click.
pub const CLICK_VELOCITY: u8 = 127;

/// The three bytes of a Note-On message on MIDI channel 1: the status
/// byte `0x90`, the note and the velocity.
pub open spec fn note_on_message(note: int, velocity: int) -> Seq<u8> {
    seq![0x90u8, note as u8, velocity as u8]
}

/// The name of pitch class `pc` (0 for C up to 11 for B).
pub open spec fn pitch_class_name(pc: int) -> Seq<char> {
    if pc == 0 {
        seq!['C']
    } else if pc == 1 {
        seq!['C', '#', '/', 'D', 'b']
    } else if pc == 2 {
        seq!['D']
    } else if pc == 3 {
        seq!['D', '#', '/', 'E', 'b']
    } else if pc == 4 {
        seq!['E']
    } else if pc == 5 {
        seq!['F']
    } else if pc == 6 {
        seq!['F', '#', '/', 'G', 'b']
    } else if pc == 7 {
        seq!['G']
    } else if pc == 8 {
        seq!['G', '#', '/', 'A', 'b']
    } else if pc == 9 {
        seq!['A']
    } else if pc == 10 {
        seq!['A', '#', '/', 'B', 'b']
    } else {
        seq!['B']
    }
}

/// The name of octave `oct`, from `-1` to `9`.
pub open spec fn octave_name(oct: int) -> Seq<char> {
    if oct == -1 {
        seq!['-', '1']
    } else if oct == 0 {
        seq!['0']
    } else if oct == 1 {
        seq!['1']
    } else if oct == 2 {
        seq!['2']
    } else if oct == 3 {
        seq!['3']
    } else if oct == 4 {
        seq!['4']
    } else if oct == 5 {
        seq!['5']
    } else if oct == 6 {
        seq!['6']
    } else if oct == 7 {
        seq!['7']
    } else if oct == 8 {
        seq!['8']
    } else {
        seq!['9']
    }
}

/// The name of MIDI note `n` (0 to 127): `C-1`, `C#/Db-1`, ..., `G9`.
pub open spec fn note_name(n: int) -> Seq<char> {
    pitch_class_name(n % 12) + octave_name(n / 12 - 1)
}

/// `wmidi::MidiMessage::to_vec` on `NoteOn(Channel::Ch1, note, velocity)`:
/// the source writes the status byte `0x90 | 0` (channel 1), then the
/// note, then the velocity. The conversions of `note` and `velocity` to
/// `wmidi::Note` and `wmidi::U7` succeed for values below 128.
#[verifier::external_body]
fn midi_note_on_bytes(note: u8, velocity: u8) -> (bytes: Vec<u8>)
    requires
        note < 128,
        velocity < 128,
    ensures
        bytes@ == note_on_message(note as int, velocity as int),
{
    let note = wmidi::Note::try_from(note).unwrap();
    let velocity = wmidi::U7::try_from(velocity).unwrap();
    wmidi::MidiMessage::NoteOn(wmidi::Channel::Ch1, note, velocity).to_vec()
}

/// `wmidi::Note::to_str` on note `note`: its table names each of the 128
/// notes by pitch class and octave, as [`note_name`] states.
#[verifier::external_body]
fn wmidi_note_name(note: u8) -> (name: String)
    requires
        note < 128,
    ensures
        name@ == note_name(note as int),
{
    wmidi::Note::try_from(note).unwrap().to_str().to_string()
}

/// Note-On for MIDI note `note` on channel 1 at full velocity.
pub fn note_on(note: u8) -> (r: Vec<u8>)
    requires
        note < 128,
    ensures
        r@ == note_on_message(note as int, 127),
{
    midi_note_on_bytes(note, CLICK_VELOCITY)
}

/// The MIDI note named `name`, if any.
pub open spec fn note_number(name: Seq<char>) -> Option<int> {
    if exists|n: int| 0 <= n < 128 && note_name(n) == name {
        Some(choose|n: int| 0 <= n < 128 && note_name(n) == name)
    } else {
        None
    }
}

/// The Note-On message (channel 1, full velocity) for the note named
/// `name`; `None` when no MIDI note has that name.
pub fn get_bytes_for_note_str(name: String) -> (r: Option<Vec<u8>>)
    ensures
        note_number(name@) is None ==> r is None,
        note_number(name@) matches Some(n) ==> r matches Some(b) && b@ == note_on_message(n, 127),
{
    let mut n: u8 = 0;
    while n < 128
        invariant
            n <= 128,
            forall|m: int| 0 <= m < n ==> note_name(m) != name@,
        decreases 128 - n,
    {
        let candidate = wmidi_note_name(n);
        if candidate == name {
            proof {
                lemma_note_name_injective(n as int, note_number(name@)->0);
            }
            return Some(note_on(n));
        }
        n = n + 1;
    }
    None
}

/// Every note's name leads back to that note.
pub proof fn law_note_name_roundtrip(n: int)
    requires
        0 <= n < 128,
    ensures
        note_number(note_name(n)) == Some(n),
{
    let m = choose|m: int| 0 <= m < 128 && note_name(m) == note_name(n);
    lemma_note_name_injective(n, m);
}

/// Distinct notes have distinct names.
pub proof fn lemma_note_name_injective(n: int, m: int)
    requires
        0 <= n < 128,
        0 <= m < 128,
        note_name(n) == note_name(m),
    ensures
        n == m,
{
    lemma_note_name_decodes(n);
    lemma_note_name_decodes(m);
}

/// The pitch class a name starts with.
spec fn decode_pitch_class(s: Seq<char>) -> int {
    if s[1] == '#' {
        if s[0] == 'C' {
            1
        } else if s[0] == 'D' {
            3
        } else if s[0] == 'F' {
            6
        } else if s[0] == 'G' {
            8
        } else {
            10
        }
    } else {
        if s[0] == 'C' {
            0
        } else if s[0] == 'D' {
            2
        } else if s[0] == 'E' {
            4
        } else if s[0] == 'F' {
            5
        } else if s[0] == 'G' {
            7
        } else if s[0] == 'A' {
            9
        } else {
            11
        }
    }
}

/// The octave a name ends with.
spec fn decode_octave(s: Seq<char>) -> int {
    let c = s.last();
    if s[s.len() - 2] == '-' {
        -1
    } else if c == '0' {
        0
    } else if c == '1' {
        1
    } else if c == '2' {
        2
    } else if c == '3' {
        3
    } else if c == '4' {
        4
    } else if c == '5' {
        5
    } else if c == '6' {
        6
    } else if c == '7' {
        7
    } else if c == '8' {
        8
    } else {
        9
    }
}

proof fn lemma_note_name_decodes(n: int)
    requires
        0 <= n < 128,
    ensures
        12 * (decode_octave(note_name(n)) + 1) + decode_pitch_class(note_name(n)) == n,
{
    let pc = n % 12;
    let oct = n / 12 - 1;
    let p = pitch_class_name(pc);
    let o = octave_name(oct);
    let s = p + o;
    assert(s[0] == p[0]);
    assert(p.len() >= 1);
    assert(s[1] == (if p.len() > 1 { p[1] } else { o[0] }));
    assert(s.last() == o.last());
    assert(s[s.len() - 2] == (if o.len() == 2 { o[0] } else { p.last() }));
    assert(decode_pitch_class(s) == pc);
    assert(decode_octave(s) == oct);
}

/// Note-On for C-1 (MIDI note 0) on channel 1 at full velocity.
pub fn cminus1_on() -> (r: Vec<u8>)
    ensures
        r@ == note_on_message(0, 127),
{
    note_on(0)
}

/// Note-On for Db-1 (MIDI note 1) on channel 1 at full velocity.
pub fn dflatminus1_on() -> (r: Vec<u8>)
    ensures
        r@ == note_on_message(1, 127),
{
    note_on(1)
}

/// Note-On for D-1 (MIDI note 2) on channel 1 at full velocity.
pub fn dminus1_on() -> (r: Vec<u8>)
    ensures
        r@ == note_on_message(2, 127),
{
    note_on(2)
}

/// Note-On for Eb-1 (MIDI note 3) on channel 1 at full velocity.
pub fn eflatminus1_on() -> (r: Vec<u8>)
    ensures
        r@ == note_on_message(3, 127),
{
    note_on(3)
}

/// Note-On for E-1 (MIDI note 4) on channel 1 at full velocity.
pub fn eminus1_on() -> (r: Vec<u8>)
    ensures
        r@ == note_on_message(4, 127),
{
    note_on(4)
}

/// Note-On for F-1 (MIDI note 5) on channel 1 at full velocity.
pub fn fminus1_on() -> (r: Vec<u8>)
    ensures
        r@ == note_on_message(5, 127),
{
    note_on(5)
}

/// Note-On for Gb-1 (MIDI note 6) on channel 1 at full velocity.
pub fn gflatminus1_on() -> (r: Vec<u8>)
    ensures
        r@ == note_on_message(6, 127),
{
    note_on(6)
}

/// Note-On for G-1 (MIDI note 7) on channel 1 at full velocity.
pub fn gminus1_on() -> (r: Vec<u8>)
    ensures
        r@ == note_on_message(7, 127),
{
    note_on(7)
}

/// Note-On for Ab-1 (MIDI note 8) on channel 1 at full velocity.
pub fn aflatminus1_on() -> (r: Vec<u8>)
    ensures
        r@ == note_on_message(8, 127),
{
    note_on(8)
}

/// Note-On for A-1 (MIDI note 9) on channel 1 at full velocity.
pub fn aminus1_on() -> (r: Vec<u8>)
    ensures
        r@ == note_on_message(9, 127),
{
    note_on(9)
}

/// Note-On for Bb-1 (MIDI note 10) on channel 1 at full velocity.
pub fn bflatminus1_on() -> (r: Vec<u8>)
    ensures
        r@ == note_on_message(10, 127),
{
    note_on(10)
}

/// Note-On for B-1 (MIDI note 11) on channel 1 at full velocity.
pub fn bminus1_on() -> (r: Vec<u8>)
    ensures
        r@ == note_on_message(11, 127),
{
    note_on(11)
}

/// Note-On for C0 (MIDI note 12) on channel 1 at full velocity.
pub fn c0_on() -> (r: Vec<u8>)
    ensures
        r@ == note_on_message(12, 127),
{
    note_on(12)
}

/// Note-On for Db0 (MIDI note 13) on channel 1 at full velocity.
pub fn dflat0_on() -> (r: Vec<u8>)
    ensures
        r@ == note_on_message(13, 127),
{
    note_on(13)
}

/// Note-On for D0 (MIDI note 14) on channel 1 at full velocity.
pub fn d0_on() -> (r: Vec<u8>)
    ensures
        r@ == note_on_message(14, 127),
{
    note_on(14)
}

/// Note-On for Eb0 (MIDI note 15) on channel 1 at full velocity.
pub fn eflat0_on() -> (r: Vec<u8>)
    ensures
        r@ == note_on_message(15, 127),
{
    note_on(15)
}

/// Note-On for E0 (MIDI note 16) on channel 1 at full velocity.
pub fn e0_on() -> (r: Vec<u8>)
    ensures
        r@ == note_on_message(16, 127),
{
    note_on(16)
}

/// Note-On for F0 (MIDI note 17) on channel 1 at full velocity.
pub fn f0_on() -> (r: Vec<u8>)
    ensures
        r@ == note_on_message(17, 127),
{
    note_on(17)
}

/// Note-On for Gb0 (MIDI note 18) on channel 1 at full velocity.
pub fn gflat0_on() -> (r: Vec<u8>)
    ensures
        r@ == note_on_message(18, 127),
{
    note_on(18)
}

/// Note-On for G0 (MIDI note 19) on channel 1 at full velocity.
pub fn g0_on() -> (r: Vec<u8>)
    ensures
        r@ == note_on_message(19, 127),
{
    note_on(19)
}

/// Note-On for Ab0 (MIDI note 20) on channel 1 at full velocity.
pub fn aflat0_on() -> (r: Vec<u8>)
    ensures
        r@ == note_on_message(20, 127),
{
    note_on(20)
}

/// Note-On for A0 (MIDI note 21) on channel 1 at full velocity.
pub fn a0_on() -> (r: Vec<u8>)
    ensures
        r@ == note_on_message(21, 127),
{
    note_on(21)
}

/// Note-On for Bb0 (MIDI note 22) on channel 1 at full velocity.
pub fn bflat0_on() -> (r: Vec<u8>)
    ensures
        r@ == note_on_message(22, 127),
{
    note_on(22)
}

/// Note-On for B0 (MIDI note 23) on channel 1 at full velocity.
pub fn b0_on() -> (r: Vec<u8>)
    ensures
        r@ == note_on_message(23, 127),
{
    note_on(23)
}

/// Note-On for C1 (MIDI note 24) on channel 1 at full velocity.
pub fn c1_on() -> (r: Vec<u8>)
    ensures
        r@ == note_on_message(24, 127),
{
    note_on(24)
}

/// Note-On for Db1 (MIDI note 25) on channel 1 at full velocity.
pub fn dflat1_on() -> (r: Vec<u8>)
    ensures
        r@ == note_on_message(25, 127),
{
    note_on(25)
}

/// Note-On for D1 (MIDI note 26) on channel 1 at full velocity.
pub fn d1_on() -> (r: Vec<u8>)
    ensures
        r@ == note_on_message(26, 127),
{
    note_on(26)
}

/// Note-On for Eb1 (MIDI note 27) on channel 1 at full velocity.
pub fn eflat1_on() -> (r: Vec<u8>)
    ensures
        r@ == note_on_message(27, 127),
{
    note_on(27)
}

/// Note-On for E1 (MIDI note 28) on channel 1 at full velocity.
pub fn e1_on() -> (r: Vec<u8>)
    ensures
        r@ == note_on_message(28, 127),
{
    note_on(28)
}

/// Note-On for F1 (MIDI note 29) on channel 1 at full velocity.
pub fn f1_on() -> (r: Vec<u8>)
    ensures
        r@ == note_on_message(29, 127),
{
    note_on(29)
}

/// Note-On for Gb1 (MIDI note 30) on channel 1 at full velocity.
pub fn gflat1_on() -> (r: Vec<u8>)
    ensures
        r@ == note_on_message(30, 127),
{
    note_on(30)
}

/// Note-On for G1 (MIDI note 31) on channel 1 at full velocity.
pub fn g1_on() -> (r: Vec<u8>)
    ensures
        r@ == note_on_message(31, 127),
{
    note_on(31)
}

/// Note-On for Ab1 (MIDI note 32) on channel 1 at full velocity.
pub fn aflat1_on() -> (r: Vec<u8>)
    ensures
        r@ == note_on_message(32, 127),
{
    note_on(32)
}

/// Note-On for A1 (MIDI note 33) on channel 1 at full velocity.
pub fn a1_on() -> (r: Vec<u8>)
    ensures
        r@ == note_on_message(33, 127),
{
    note_on(33)
}

/// Note-On for Bb1 (MIDI note 34) on channel 1 at full velocity.
pub fn bflat1_on() -> (r: Vec<u8>)
    ensures
        r@ == note_on_message(34, 127),
{
    note_on(34)
}

/// Note-On for B1 (MIDI note 35) on channel 1 at full velocity.
pub fn b1_on() -> (r: Vec<u8>)
    ensures
        r@ == note_on_message(35, 127),
{
    note_on(35)
}

/// Note-On for C2 (MIDI note 36) on channel 1 at full velocity.
pub fn c2_on() -> (r: Vec<u8>)
    ensures
        r@ == note_on_message(36, 127),
{
    note_on(36)
}

} // verus!
