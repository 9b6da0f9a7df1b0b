//! Note values expressed in ticks of the quarter-note beat.

use vstd::prelude::*;

verus! {

/// A duration or position, counted in ticks of the quarter-note beat.
pub type Ticks = u64;

/// Ticks in one quarter-note beat. Divisible by every n from 1 to 16
/// and by 256, so the usual note values and their tuplets land on whole
/// ticks.
pub const TICKS_PER_BEAT: Ticks = 11_531_520;

/// Alias of [`WholeNote`].
#[allow(non_upper_case_globals)]
pub const Semibreve: Ticks = 46_126_080;
/// Four quarter-note beats.
#[allow(non_upper_case_globals)]
pub const WholeNote: Ticks = 46_126_080;
/// Alias of [`HalfNote`].
#[allow(non_upper_case_globals)]
pub const Minit: Ticks = 23_063_040;
/// Two quarter-note beats.
#[allow(non_upper_case_globals)]
pub const HalfNote: Ticks = 23_063_040;
/// Alias of [`QuarterNote`].
#[allow(non_upper_case_globals)]
pub const Crotchet: Ticks = 11_531_520;
/// One quarter-note beat.
#[allow(non_upper_case_globals)]
pub const QuarterNote: Ticks = 11_531_520;
/// Alias of [`EighthNote`].
#[allow(non_upper_case_globals)]
pub const Quaver: Ticks = 5_765_760;
/// Half a quarter-note beat.
#[allow(non_upper_case_globals)]
pub const EighthNote: Ticks = 5_765_760;
/// Alias of [`SixteenthNote`].
#[allow(non_upper_case_globals)]
pub const Semiquaver: Ticks = 2_882_880;
/// A quarter of a quarter-note beat.
#[allow(non_upper_case_globals)]
pub const SixteenthNote: Ticks = 2_882_880;

/// The exact value `2 * note_type / n_tuplet`, rounded to the nearest
/// tick (halves round up).
pub open spec fn tuplet_ticks(note_type: int, n_tuplet: int) -> int {
    (4 * note_type + n_tuplet) / (2 * n_tuplet)
}

/// The duration of one note of an `n_tuplet`-tuplet played in the space
/// of two notes of value `note_type`: `2 * note_type / n_tuplet`,
/// rounded to the nearest tick.
///
/// `None` when `n_tuplet` is zero (no finite duration) or when the
/// duration does not fit in [`Ticks`].
pub fn tuplet(note_type: Ticks, n_tuplet: u16) -> (r: Option<Ticks>)
    ensures
        n_tuplet == 0 ==> r is None,
        n_tuplet > 0 && tuplet_ticks(note_type as int, n_tuplet as int) <= u64::MAX
            ==> r == Some(tuplet_ticks(note_type as int, n_tuplet as int) as Ticks),
        n_tuplet > 0 && tuplet_ticks(note_type as int, n_tuplet as int) > u64::MAX ==> r is None,
{
    if n_tuplet == 0 {
        return None;
    }
    let num: u128 = 4 * (note_type as u128) + (n_tuplet as u128);
    let den: u128 = 2 * (n_tuplet as u128);
    let v: u128 = num / den;
    if v <= u64::MAX as u128 {
        Some(v as u64)
    } else {
        None
    }
}

/// Two notes in the space of two is no tuplet at all.
pub proof fn law_duplet_is_identity(note_type: int)
    requires
        note_type >= 0,
    ensures
        tuplet_ticks(note_type, 2) == note_type,
{
    vstd::arithmetic::div_mod::lemma_fundamental_div_mod_converse(4 * note_type + 2, 4, note_type, 2);
}

/// A tuplet note lasts `2 * note_type / n` ticks to the nearest tick: `n`
/// of them together are within `n / 2` ticks of two notes of value
/// `note_type`, for every `n >= 1`.
pub proof fn law_tuplet_fills_two_notes(note_type: int, n: int)
    requires
        note_type >= 0,
        n >= 1,
    ensures
        -n <= 2 * n * tuplet_ticks(note_type, n) - 4 * note_type <= n,
        tuplet_ticks(note_type, n) >= 0,
{
    let q = tuplet_ticks(note_type, n);
    vstd::arithmetic::div_mod::lemma_fundamental_div_mod(4 * note_type + n, 2 * n);
    let r = (4 * note_type + n) % (2 * n);
    assert(4 * note_type + n == (2 * n) * q + r);
    assert(0 <= r < 2 * n);
    assert(2 * n * q == (2 * n) * q) by (nonlinear_arith);
    vstd::arithmetic::div_mod::lemma_div_pos_is_pos(4 * note_type + n, 2 * n);
}

} // verus!
