//! Decimal numbers of beats, read exactly as ticks.
//!
//! A YAML float is kept as the text it was written as. Here such a text
//! (an optional sign, digits with an optional point, an optional
//! exponent) is read as the exact rational number it writes, and that
//! number of beats is rounded to the nearest tick.

use vstd::prelude::*;
use crate::beat_values::TICKS_PER_BEAT;

verus! {

pub open spec fn is_digit(c: char) -> bool {
    '0' <= c <= '9'
}

pub open spec fn digit_of(c: char) -> int {
    c as int - '0' as int
}

/// The value of digit character `c`, as a byte.
pub open spec fn digit_byte(c: char) -> u8 {
    digit_of(c) as u8
}

/// Number of digits in `s` from index `i` on.
pub open spec fn digit_run(s: Seq<char>, i: int) -> int
    decreases s.len() - i,
{
    if 0 <= i < s.len() && is_digit(s[i]) {
        1 + digit_run(s, i + 1)
    } else {
        0
    }
}

/// The number written by the digit characters `s[i..j]`.
pub open spec fn digits_value(s: Seq<char>, i: int, j: int) -> int
    decreases j - i,
{
    if i < j {
        10 * digits_value(s, i, j - 1) + digit_of(s[j - 1])
    } else {
        0
    }
}

/// The number written by the decimal digits `ds` (each from 0 to 9).
pub open spec fn digits_number(ds: Seq<u8>) -> int
    decreases ds.len(),
{
    if ds.len() == 0 {
        0
    } else {
        10 * digits_number(ds.drop_last()) + ds.last() as int
    }
}

pub open spec fn all_digits(ds: Seq<u8>) -> bool {
    forall|k: int| 0 <= k < ds.len() ==> #[trigger] ds[k] <= 9
}

pub open spec fn pow10(n: nat) -> int
    decreases n,
{
    if n == 0 {
        1
    } else {
        10 * pow10((n - 1) as nat)
    }
}

/// A number as Rust's float parser reads it, but for the infinite and
/// not-a-number words: an optional sign; digits with at most one point,
/// at least one digit in all; then optionally an exponent, `e` or `E`
/// with an optional sign and at least one digit. Gives whether it is
/// negative, its digits without the point, and the power of ten they are
/// scaled by: the number is `±digits_number(ds) * 10^p`.
pub open spec fn decimal_form(s: Seq<char>) -> Option<(bool, Seq<u8>, int)> {
    let a: int = if s.len() > 0 && (s[0] == '-' || s[0] == '+') { 1 } else { 0 };
    let b = a + digit_run(s, a);
    let has_dot = b < s.len() && s[b] == '.';
    let c = if has_dot { b + 1 + digit_run(s, b + 1) } else { b };
    let f = c - b - (if has_dot { 1int } else { 0 });
    let ds = s.subrange(a, b).map_values(|ch: char| digit_byte(ch)) + s.subrange(c - f, c).map_values(
        |ch: char| digit_byte(ch),
    );
    let has_exp = c < s.len() && (s[c] == 'e' || s[c] == 'E');
    let signed_exp = has_exp && c + 1 < s.len() && (s[c + 1] == '-' || s[c + 1] == '+');
    let g = if signed_exp { c + 2 } else { c + 1 };
    let h = g + digit_run(s, g);
    let e = if !has_exp {
        0
    } else if signed_exp && s[c + 1] == '-' {
        -digits_value(s, g, h)
    } else {
        digits_value(s, g, h)
    };
    let end = if has_exp { h } else { c };
    if ds.len() == 0 || end != s.len() || (has_exp && h == g) {
        None
    } else {
        Some((a == 1 && s[0] == '-', ds, e - f))
    }
}

/// `n / d` rounded to the nearest integer, halves away from zero.
pub open spec fn round_div(n: int, d: int) -> int {
    if n >= 0 {
        (2 * n + d) / (2 * d)
    } else {
        -((2 * (-n) + d) / (2 * d))
    }
}

/// `m * 10^p` beats (for `m >= 0`) in ticks, to the nearest tick.
pub open spec fn scaled_ticks(m: int, p: int) -> int {
    if p >= 0 {
        m * TICKS_PER_BEAT * pow10(p as nat)
    } else {
        round_div(m * TICKS_PER_BEAT, pow10((-p) as nat))
    }
}

/// As [`scaled_ticks`], but a number that is not zero is at least one
/// tick.
pub open spec fn nonzero_ticks(m: int, p: int) -> int {
    if m > 0 && scaled_ticks(m, p) == 0 {
        1
    } else {
        scaled_ticks(m, p)
    }
}

/// The ticks that the decimal number of beats `s` stands for: the exact
/// number rounded to the nearest tick, halves away from zero, where a
/// number that is not zero gives at least one tick of its sign; `None`
/// unless `s` has the form of [`decimal_form`].
pub open spec fn decimal_ticks(s: Seq<char>) -> Option<int> {
    match decimal_form(s) {
        Some(x) => {
            let t = nonzero_ticks(digits_number(x.1), x.2);
            Some(if x.0 { -t } else { t })
        },
        None => None,
    }
}

/// A bound on tick counts, far beyond any `u64` or `i64` value.
pub const TICK_LIMIT: i128 = 1_000_000_000_000_000_000_000_000_000_000i128;

/// `v` limited to `[-TICK_LIMIT, TICK_LIMIT]`.
pub open spec fn saturate(v: int) -> int {
    if v > TICK_LIMIT {
        TICK_LIMIT as int
    } else if v < -TICK_LIMIT {
        -TICK_LIMIT
    } else {
        v
    }
}

pub proof fn lemma_pow10_pos(n: nat)
    ensures
        pow10(n) >= 1,
    decreases n,
{
    if n > 0 {
        lemma_pow10_pos((n - 1) as nat);
    }
}

pub proof fn lemma_pow10_le(hi: nat, lo: nat)
    requires
        lo <= hi,
    ensures
        pow10(lo) <= pow10(hi),
    decreases hi - lo,
{
    if lo < hi {
        lemma_pow10_le((hi - 1) as nat, lo);
        lemma_pow10_pos((hi - 1) as nat);
    }
}

proof fn lemma_pow10_add(a: nat, b: nat)
    ensures
        pow10(a + b) == pow10(a) * pow10(b),
    decreases b,
{
    if b > 0 {
        lemma_pow10_add(a, (b - 1) as nat);
        assert(pow10(a + b) == 10 * pow10((a + b - 1) as nat));
        assert(pow10(a) * pow10(b) == pow10(a) * (10 * pow10((b - 1) as nat)));
        assert(pow10(a) * (10 * pow10((b - 1) as nat)) == 10 * (pow10(a) * pow10((b - 1) as nat))) by (nonlinear_arith);
    }
}

/// Digits written after others scale those by a power of ten.
proof fn lemma_digits_number_concat(x: Seq<u8>, y: Seq<u8>)
    ensures
        digits_number(x + y) == digits_number(x) * pow10(y.len()) + digits_number(y),
    decreases y.len(),
{
    if y.len() == 0 {
        assert(x + y =~= x);
    } else {
        lemma_digits_number_concat(x, y.drop_last());
        assert((x + y).drop_last() =~= x + y.drop_last());
        assert((x + y).last() == y.last());
        let a = digits_number(x);
        let p = pow10((y.len() - 1) as nat);
        let r = digits_number(y.drop_last());
        assert(10 * (a * p + r) + y.last() as int == a * (10 * p) + (10 * r + y.last() as int)) by (nonlinear_arith);
    }
}

proof fn lemma_digits_number_bound(ds: Seq<u8>)
    requires
        all_digits(ds),
    ensures
        0 <= digits_number(ds) < pow10(ds.len()),
    decreases ds.len(),
{
    if ds.len() > 0 {
        lemma_digits_number_bound(ds.drop_last());
        assert(ds.last() <= 9);
    }
}

proof fn lemma_digits_number_zero(ds: Seq<u8>)
    requires
        all_digits(ds),
    ensures
        digits_number(ds) == 0 <==> forall|k: int| 0 <= k < ds.len() ==> #[trigger] ds[k] == 0,
    decreases ds.len(),
{
    if ds.len() > 0 {
        lemma_digits_number_bound(ds.drop_last());
        lemma_digits_number_zero(ds.drop_last());
        if digits_number(ds) == 0 {
            assert forall|k: int| 0 <= k < ds.len() implies #[trigger] ds[k] == 0 by {
                if k < ds.len() - 1 {
                    assert(ds.drop_last()[k] == ds[k]);
                }
            }
        }
        if forall|k: int| 0 <= k < ds.len() ==> #[trigger] ds[k] == 0 {
            assert forall|k: int| 0 <= k < ds.drop_last().len() implies #[trigger] ds.drop_last()[k] == 0 by {
                assert(ds[k] == 0);
            }
            assert(ds[ds.len() - 1] == 0);
        }
    }
}

/// Rounding halves up, through the floor of the doubled quotient.
proof fn lemma_round_via_double(x: int, d: int)
    requires
        0 <= x,
        0 < d,
    ensures
        round_div(x, d) == ((2 * x) / d + 1) / 2,
{
    vstd::arithmetic::div_mod::lemma_div_denominator(2 * x + d, d, 2);
    vstd::arithmetic::div_mod::lemma_hoist_over_denominator(2 * x, 1, d as nat);
    assert(d * 2 == 2 * d);
}

/// The doubled quotient splits into the whole part and the carry of the
/// remaining digits.
proof fn lemma_split_quotient(hi: int, lo: int, q: int, t: int)
    requires
        0 <= lo,
        0 < q,
        0 <= t,
    ensures
        (t * (hi * q + lo)) / q == t * hi + (t * lo) / q,
{
    assert(t * (hi * q + lo) == t * lo + (t * hi) * q) by (nonlinear_arith);
    vstd::arithmetic::div_mod::lemma_hoist_over_denominator(t * lo, t * hi, q as nat);
}

/// One step of the carry, from the last digit towards the first.
proof fn lemma_carry_step(d: int, y: int, r: nat, t: int)
    requires
        0 <= d,
        0 <= y,
        0 <= t,
    ensures
        (t * (d * pow10(r) + y)) / pow10(r + 1) == (t * d + (t * y) / pow10(r)) / 10,
{
    lemma_pow10_pos(r);
    let q = pow10(r);
    assert(pow10(r + 1) == q * 10);
    lemma_split_quotient(d, y, q, t);
    assert(t * (d * q + y) >= 0) by (nonlinear_arith)
        requires
            0 <= d,
            0 <= y,
            0 <= t,
            q >= 1,
    ;
    vstd::arithmetic::div_mod::lemma_div_denominator(t * (d * q + y), q, 10);
}

} // verus!

verus! {

/// Digit counts above this are not kept exactly.
const DIGITS_LIMIT: u128 = 100_000_000_000_000_000_000_000u128;

/// `digits_number(ds[..hi]) * 10^extra` when it is below
/// `DIGITS_LIMIT`, else `None`.
fn scale_up(ds: &Vec<u8>, hi: usize, extra: u128) -> (r: Option<u128>)
    requires
        all_digits(ds@),
        hi <= ds.len(),
    ensures
        ({
            let v = digits_number(ds@.take(hi as int)) * pow10(extra as nat);
            r == if v < DIGITS_LIMIT {
                Some(v as u128)
            } else {
                None::<u128>
            }
        }),
{
    let ghost whole = digits_number(ds@.take(hi as int));
    let ghost v = whole * pow10(extra as nat);
    proof {
        lemma_pow10_pos(extra as nat);
        lemma_digits_number_bound(ds@.take(hi as int));
    }
    let mut acc: u128 = 0;
    let mut i: usize = 0;
    while i < hi
        invariant
            i <= hi <= ds.len(),
            all_digits(ds@),
            acc as int == digits_number(ds@.take(i as int)),
            acc < DIGITS_LIMIT,
            whole == digits_number(ds@.take(hi as int)),
            v == whole * pow10(extra as nat),
            pow10(extra as nat) >= 1,
        decreases hi - i,
    {
        assert(ds@.take(i + 1).drop_last() =~= ds@.take(i as int));
        assert(ds@[i as int] <= 9);
        let nv: u128 = acc * 10 + ds[i] as u128;
        assert(nv as int == digits_number(ds@.take(i + 1)));
        if nv >= DIGITS_LIMIT {
            proof {
                lemma_digits_number_concat(ds@.take(i + 1), ds@.subrange(i + 1, hi as int));
                assert(ds@.take(i + 1) + ds@.subrange(i + 1, hi as int) =~= ds@.take(hi as int));
                lemma_pow10_pos((hi - i - 1) as nat);
                lemma_digits_number_bound(ds@.subrange(i + 1, hi as int));
                assert(whole >= nv) by (nonlinear_arith)
                    requires
                        whole == nv * pow10((hi - i - 1) as nat) + digits_number(ds@.subrange(i + 1, hi as int)),
                        pow10((hi - i - 1) as nat) >= 1,
                        digits_number(ds@.subrange(i + 1, hi as int)) >= 0,
                        nv >= 0,
                ;
                assert(v >= whole) by (nonlinear_arith)
                    requires
                        v == whole * pow10(extra as nat),
                        pow10(extra as nat) >= 1,
                        whole >= 0,
                ;
            }
            return None;
        }
        acc = nv;
        i = i + 1;
    }
    assert(acc as int == whole);
    if acc == 0 {
        assert(whole == 0);
        assert(v == 0) by (nonlinear_arith)
            requires
                v == whole * pow10(extra as nat),
                whole == 0,
        ;
        return Some(0);
    }
    let mut k: u128 = 0;
    while k < extra
        invariant
            k <= extra,
            acc as int == whole * pow10(k as nat),
            1 <= acc < DIGITS_LIMIT,
            v == whole * pow10(extra as nat),
            whole == digits_number(ds@.take(hi as int)),
            whole >= 1,
        decreases extra - k,
    {
        let nv: u128 = acc * 10;
        assert(nv as int == whole * pow10((k + 1) as nat)) by (nonlinear_arith)
            requires
                acc as int == whole * pow10(k as nat),
                nv == acc * 10,
                pow10((k + 1) as nat) == 10 * pow10(k as nat),
        ;
        if nv >= DIGITS_LIMIT {
            proof {
                lemma_pow10_le(extra as nat, (k + 1) as nat);
                assert(v >= nv) by (nonlinear_arith)
                    requires
                        nv as int == whole * pow10((k + 1) as nat),
                        v == whole * pow10(extra as nat),
                        pow10((k + 1) as nat) <= pow10(extra as nat),
                        whole >= 1,
                ;
            }
            return None;
        }
        acc = nv;
        k = k + 1;
    }
    Some(acc)
}

/// Twice the ticks of the fraction `0.ds[lo..]` of a beat, rounded down:
/// `(2 * TICKS_PER_BEAT * digits_number(ds[lo..])) / 10^(len - lo)`.
fn fraction_carry(ds: &Vec<u8>, lo: usize) -> (c: u64)
    requires
        all_digits(ds@),
        lo <= ds.len(),
    ensures
        c as int == (2 * TICKS_PER_BEAT * digits_number(ds@.skip(lo as int))) / pow10((ds.len() - lo) as nat),
        c < 2 * TICKS_PER_BEAT,
{
    let t2: u64 = 2 * TICKS_PER_BEAT;
    let n = ds.len();
    let mut c: u64 = 0;
    let mut j: usize = n;
    proof {
        assert(ds@.subrange(n as int, n as int) =~= Seq::<u8>::empty());
        vstd::arithmetic::div_mod::lemma_basic_div(0, 1);
    }
    while j > lo
        invariant
            lo <= j <= n,
            n == ds.len(),
            all_digits(ds@),
            t2 == 2 * TICKS_PER_BEAT,
            c as int == (t2 * digits_number(ds@.subrange(j as int, n as int))) / pow10((n - j) as nat),
            c < t2,
        decreases j - lo,
    {
        let d = ds[j - 1];
        assert(ds@[j - 1] <= 9);
        assert(d <= 9);
        let ghost rest = ds@.subrange(j as int, n as int);
        proof {
            lemma_digits_number_concat(seq![d], rest);
            assert(seq![d] + rest =~= ds@.subrange(j - 1, n as int));
            assert(seq![d].drop_last() =~= Seq::<u8>::empty());
            assert(digits_number(Seq::<u8>::empty()) == 0);
            assert(seq![d].last() == d);
            assert(digits_number(seq![d]) == 10 * digits_number(seq![d].drop_last()) + d as int);
            assert(digits_number(seq![d]) == d as int);
            lemma_digits_number_bound(rest);
            lemma_carry_step(d as int, digits_number(rest), (n - j) as nat, t2 as int);
            assert((n - j) as nat + 1 == (n - (j - 1)) as nat);
        }
        assert(t2 * (d as u64) <= 9 * t2) by (nonlinear_arith)
            requires
                d <= 9,
        ;
        assert(t2 == 23_063_040);
        c = (t2 * (d as u64) + c) / 10;
        j = j - 1;
    }
    assert(ds@.subrange(lo as int, n as int) =~= ds@.skip(lo as int));
    c
}

proof fn lemma_pow10_23()
    ensures
        pow10(23) == DIGITS_LIMIT as int,
{
    reveal_with_fuel(pow10, 24);
}


/// Whether the digits write a number other than zero.
fn any_nonzero(ds: &Vec<u8>) -> (r: bool)
    requires
        all_digits(ds@),
    ensures
        r == (digits_number(ds@) > 0),
{
    proof {
        lemma_digits_number_bound(ds@);
        lemma_digits_number_zero(ds@);
    }
    let mut i: usize = 0;
    while i < ds.len()
        invariant
            i <= ds.len(),
            all_digits(ds@),
            forall|k: int| 0 <= k < i ==> #[trigger] ds@[k] == 0,
        decreases ds.len() - i,
    {
        if ds[i] != 0 {
            assert(ds@[i as int] != 0);
            proof {
                lemma_digits_number_bound(ds@);
                lemma_digits_number_zero(ds@);
            }
            return true;
        }
        i = i + 1;
    }
    false
}

/// Exponents beyond this in size are not kept exactly.
const HUGE: i128 = 100_000_000_000_000_000_000i128;

/// The saturated ticks of `digits_number(ds) * 10^pp` beats, where `p` is
/// `pp` or, when `pp` lies beyond `HUGE` in size, `HUGE` with its sign.
fn magnitude_ticks(ds: &Vec<u8>, p: i128, Ghost(pp): Ghost<int>) -> (r: i128)
    requires
        all_digits(ds@),
        -HUGE <= p <= HUGE,
        p == pp || (p == HUGE && pp >= HUGE) || (p == -HUGE && pp <= -HUGE),
    ensures
        r == saturate(nonzero_ticks(digits_number(ds@), pp)),
{
    let n = ds.len();
    let ghost m = digits_number(ds@);
    let ghost t = TICKS_PER_BEAT as int;
    proof {
        lemma_digits_number_bound(ds@);
        assert(ds@.take(n as int) =~= ds@);
        assert(ds@.skip(0) =~= ds@);
    }
    if !any_nonzero(ds) {
        proof {
            if pp >= 0 {
                assert(m * t * pow10(pp as nat) == 0) by (nonlinear_arith)
                    requires
                        m == 0,
                ;
            } else {
                let q = pow10((-pp) as nat);
                lemma_pow10_pos((-pp) as nat);
                assert(m * t == 0) by (nonlinear_arith)
                    requires
                        m == 0,
                ;
                vstd::arithmetic::div_mod::lemma_basic_div(q, 2 * q);
            }
        }
        return 0;
    }
    assert(m >= 1);
    if p >= 0 {
        proof {
            lemma_pow10_le(pp as nat, p as nat);
            lemma_pow10_pos(p as nat);
            lemma_pow10_23();
        }
        match scale_up(ds, n, p as u128) {
            None => {
                proof {
                    assert(m * pow10(pp as nat) >= m * pow10(p as nat)) by (nonlinear_arith)
                        requires
                            pow10(pp as nat) >= pow10(p as nat),
                            m >= 1,
                    ;
                    assert(m * t * pow10(pp as nat) >= DIGITS_LIMIT * t) by (nonlinear_arith)
                        requires
                            m * pow10(pp as nat) >= DIGITS_LIMIT,
                            t > 0,
                    ;
                }
                return TICK_LIMIT;
            },
            Some(v) => {
                proof {
                    if p == HUGE {
                        lemma_pow10_le(HUGE as nat, 23);
                        assert(m * pow10(p as nat) >= pow10(23)) by (nonlinear_arith)
                            requires
                                pow10(p as nat) >= pow10(23),
                                pow10(23) >= 1,
                                m >= 1,
                        ;
                    }
                    assert(pp == p);
                    assert(m * t * pow10(pp as nat) == (v as int) * t) by (nonlinear_arith)
                        requires
                            v as int == m * pow10(p as nat),
                            pp == p,
                    ;
                    assert((v as int) * t >= t) by (nonlinear_arith)
                        requires
                            v as int == m * pow10(p as nat),
                            m >= 1,
                            pow10(p as nat) >= 1,
                            t > 0,
                    ;
                }
                let r: u128 = v * (TICKS_PER_BEAT as u128);
                if r > TICK_LIMIT as u128 {
                    return TICK_LIMIT;
                }
                return r as i128;
            },
        }
    }
    let k: u128 = (-p) as u128;
    let ghost kk: nat = (-pp) as nat;
    let ghost q = pow10(kk);
    proof {
        lemma_pow10_pos(kk);
        lemma_round_via_double(m * t, q);
        assert(2 * (m * t) == (2 * t) * m) by (nonlinear_arith);
    }
    if k > (n as u128) + 8 {
        proof {
            assert(kk >= n + 9);
            lemma_pow10_add(n as nat, 8);
            reveal_with_fuel(pow10, 9);
            lemma_pow10_le(kk, (n + 8) as nat);
            assert((2 * t) * m < pow10(n as nat) * pow10(8)) by (nonlinear_arith)
                requires
                    0 <= m < pow10(n as nat),
                    2 * t < pow10(8),
                    t > 0,
            ;
            vstd::arithmetic::div_mod::lemma_basic_div(2 * (m * t), q);
            assert(m * t >= 0) by (nonlinear_arith)
                requires
                    m >= 1,
                    t > 0,
            ;
        }
        return 1;
    }
    assert(pp == p);
    if k <= n as u128 {
        let j0: usize = n - (k as usize);
        let ghost hi_part = ds@.take(j0 as int);
        let ghost lo_part = ds@.skip(j0 as int);
        proof {
            lemma_digits_number_concat(hi_part, lo_part);
            assert(hi_part + lo_part =~= ds@);
            assert(lo_part.len() == kk);
            lemma_digits_number_bound(lo_part);
            lemma_digits_number_bound(hi_part);
            reveal_with_fuel(pow10, 1);
            lemma_split_quotient(digits_number(hi_part), digits_number(lo_part), q, 2 * t);
            assert((2 * t) * m == (2 * t) * (digits_number(hi_part) * q + digits_number(lo_part)));
            assert((2 * t) * digits_number(lo_part) >= 0) by (nonlinear_arith)
                requires
                    digits_number(lo_part) >= 0,
                    t > 0,
            ;
            vstd::arithmetic::div_mod::lemma_div_pos_is_pos((2 * t) * digits_number(lo_part), q);
        }
        match scale_up(ds, j0, 0) {
            None => {
                proof {
                    assert(digits_number(hi_part) * pow10(0) == digits_number(hi_part));
                    let big = (2 * t) * digits_number(hi_part) + ((2 * t) * digits_number(lo_part)) / q;
                    assert(big >= 2 * t * DIGITS_LIMIT) by (nonlinear_arith)
                        requires
                            big >= (2 * t) * digits_number(hi_part),
                            digits_number(hi_part) >= DIGITS_LIMIT,
                            t > 0,
                    ;
                    vstd::arithmetic::div_mod::lemma_div_is_ordered(2 * t * DIGITS_LIMIT + 1, big + 1, 2);
                }
                return TICK_LIMIT;
            },
            Some(h) => {
                let c = fraction_carry(ds, j0);
                assert(h as int == digits_number(hi_part));
                let total: u128 = 2 * (TICKS_PER_BEAT as u128) * h + (c as u128);
                let qv: u128 = (total + 1) / 2;
                let r: u128 = if qv == 0 { 1 } else { qv };
                if r > TICK_LIMIT as u128 {
                    return TICK_LIMIT;
                }
                return r as i128;
            },
        }
    }
    let mut c: u64 = fraction_carry(ds, 0);
    let mut z: u128 = n as u128;
    proof {
        lemma_pow10_pos(n as nat);
    }
    while z < k
        invariant
            n as u128 <= z <= k,
            c as int == ((2 * t) * m) / pow10(z as nat),
            c < 2 * TICKS_PER_BEAT,
            t == TICKS_PER_BEAT as int,
            m >= 1,
        decreases k - z,
    {
        proof {
            lemma_pow10_pos(z as nat);
            assert((2 * t) * m >= 0) by (nonlinear_arith)
                requires
                    m >= 1,
                    t > 0,
            ;
            vstd::arithmetic::div_mod::lemma_div_denominator((2 * t) * m, pow10(z as nat), 10);
            assert(pow10((z + 1) as nat) == pow10(z as nat) * 10);
        }
        c = c / 10;
        z = z + 1;
    }
    let qv: u64 = (c + 1) / 2;
    if qv == 0 {
        1
    } else {
        qv as i128
    }
}

proof fn lemma_digit_run_digits(s: Seq<char>, i: int, k: int)
    requires
        0 <= i <= k < i + digit_run(s, i),
    ensures
        is_digit(s[k]),
        k < s.len(),
    decreases k - i,
{
    if k > i {
        lemma_digit_run_digits(s, i + 1, k);
    }
}

proof fn lemma_digit_run_bound(s: Seq<char>, i: int)
    requires
        0 <= i,
    ensures
        0 <= digit_run(s, i),
        i + digit_run(s, i) <= s.len() || digit_run(s, i) == 0,
    decreases s.len() - i,
{
    if 0 <= i < s.len() && is_digit(s[i]) {
        lemma_digit_run_bound(s, i + 1);
    }
}

proof fn lemma_digits_value_nonneg(s: Seq<char>, i: int, j: int)
    requires
        forall|k: int| i <= k < j ==> is_digit(#[trigger] s[k]),
    ensures
        0 <= digits_value(s, i, j),
    decreases j - i,
{
    if i < j {
        lemma_digits_value_nonneg(s, i, j - 1);
    }
}

proof fn lemma_ascii_byte(c: char)
    requires
        c <= '\u{7f}',
    ensures
        (c as u8) as int == c as int,
{
}

/// Every character of a decimal form is ASCII.
proof fn lemma_decimal_form_ascii(t: Seq<char>)
    requires
        decimal_form(t) is Some,
    ensures
        vstd::utf8::is_ascii_chars(t),
{
    let a: int = if t.len() > 0 && (t[0] == '-' || t[0] == '+') { 1 } else { 0 };
    let b = a + digit_run(t, a);
    let has_dot = b < t.len() && t[b] == '.';
    let c = if has_dot { b + 1 + digit_run(t, b + 1) } else { b };
    let has_exp = c < t.len() && (t[c] == 'e' || t[c] == 'E');
    let signed_exp = has_exp && c + 1 < t.len() && (t[c + 1] == '-' || t[c + 1] == '+');
    let g = if signed_exp { c + 2 } else { c + 1 };
    lemma_digit_run_bound(t, a);
    lemma_digit_run_bound(t, b + 1);
    lemma_digit_run_bound(t, g);
    assert forall|k: int| 0 <= k < t.len() implies '\0' <= #[trigger] t[k] <= '\u{7f}' by {
        if k < a {
        } else if k < b {
            lemma_digit_run_digits(t, a, k);
        } else if k == b {
            assert(has_dot || has_exp);
        } else if k < c {
            lemma_digit_run_digits(t, b + 1, k);
        } else if k == c {
            assert(has_exp);
        } else if k < g {
            assert(signed_exp);
        } else {
            lemma_digit_run_digits(t, g, k);
        }
    }
}

/// Exponents written with more digits than fit below this are not kept
/// exactly.
const EXP_LIMIT: u128 = 1_000_000_000_000_000_000_000u128;

/// The bytes of `t`, one per character.
spec fn bytes_match(bytes: Seq<u8>, t: Seq<char>) -> bool {
    bytes.len() == t.len() && forall|k: int| 0 <= k < t.len() ==> (#[trigger] bytes[k]) as int == t[k] as int
}

/// Appends the values of the digits of `t` from `start` on to `ds`;
/// returns the index after them.
fn scan_digits(bytes: &[u8], Ghost(t): Ghost<Seq<char>>, start: usize, ds: &mut Vec<u8>) -> (end: usize)
    requires
        bytes_match(bytes@, t),
        start <= bytes@.len(),
        all_digits(old(ds)@),
    ensures
        end == start + digit_run(t, start as int),
        start <= end <= bytes@.len(),
        final(ds)@ == old(ds)@ + t.subrange(start as int, end as int).map_values(|ch: char| digit_byte(ch)),
        all_digits(final(ds)@),
{
    let len = bytes.len();
    let mut i = start;
    assert(old(ds)@ =~= old(ds)@ + t.subrange(start as int, start as int).map_values(|ch: char| digit_byte(ch)));
    while i < len && 48u8 <= bytes[i] && bytes[i] <= 57u8
        invariant
            start <= i <= len,
            bytes_match(bytes@, t),
            len == bytes@.len(),
            digit_run(t, start as int) == (i - start) + digit_run(t, i as int),
            ds@ == old(ds)@ + t.subrange(start as int, i as int).map_values(|ch: char| digit_byte(ch)),
            all_digits(ds@),
        decreases len - i,
    {
        assert(bytes@[i as int] as int == t[i as int] as int);
        assert(is_digit(t[i as int]));
        let d: u8 = bytes[i] - 48u8;
        proof {
            lemma_digit_run_bound(t, i + 1);
            assert(old(ds)@ + t.subrange(start as int, i + 1).map_values(|ch: char| digit_byte(ch)) =~= (old(ds)@
                + t.subrange(start as int, i as int).map_values(|ch: char| digit_byte(ch))).push(
                digit_byte(t[i as int]),
            ));
        }
        ds.push(d);
        i = i + 1;
    }
    if i < len {
        assert(bytes@[i as int] as int == t[i as int] as int);
    }
    assert(digit_run(t, i as int) == 0);
    i
}

/// Reads the exponent digits of `t` from `g` on: the index after them,
/// their value when it is at most `EXP_LIMIT`, and whether it is larger.
fn scan_exponent(bytes: &[u8], Ghost(t): Ghost<Seq<char>>, g: usize) -> (r: (usize, u128, bool))
    requires
        bytes_match(bytes@, t),
        g <= bytes@.len(),
    ensures
        r.0 == g + digit_run(t, g as int),
        g <= r.0 <= bytes@.len(),
        !r.2 ==> r.1 as int == digits_value(t, g as int, r.0 as int),
        r.2 ==> digits_value(t, g as int, r.0 as int) > EXP_LIMIT,
        r.1 <= EXP_LIMIT,
{
    let len = bytes.len();
    let mut i = g;
    let mut e_val: u128 = 0;
    let mut e_big = false;
    while i < len && 48u8 <= bytes[i] && bytes[i] <= 57u8
        invariant
            g <= i <= len,
            bytes_match(bytes@, t),
            len == bytes@.len(),
            digit_run(t, g as int) == (i - g) + digit_run(t, i as int),
            forall|k: int| g <= k < i ==> is_digit(#[trigger] t[k]),
            !e_big ==> e_val as int == digits_value(t, g as int, i as int),
            e_big ==> digits_value(t, g as int, i as int) > EXP_LIMIT,
            e_val <= EXP_LIMIT,
        decreases len - i,
    {
        assert(bytes@[i as int] as int == t[i as int] as int);
        assert(is_digit(t[i as int]));
        let d: u8 = bytes[i] - 48u8;
        proof {
            lemma_digit_run_bound(t, i + 1);
            lemma_digits_value_nonneg(t, g as int, i as int);
            assert(digits_value(t, g as int, i + 1) == 10 * digits_value(t, g as int, i as int) + digit_of(
                t[i as int],
            ));
        }
        if !e_big {
            let nv: u128 = e_val * 10 + d as u128;
            if nv > EXP_LIMIT {
                e_big = true;
            } else {
                e_val = nv;
            }
        }
        i = i + 1;
    }
    if i < len {
        assert(bytes@[i as int] as int == t[i as int] as int);
    }
    assert(digit_run(t, i as int) == 0);
    (i, e_val, e_big)
}

/// The power of ten for exponent `±e_val` (or a larger one, when `e_big`)
/// after `f` fraction digits, limited to `±HUGE`.
fn scale_power(exp_neg: bool, e_val: u128, e_big: bool, f: usize, Ghost(e): Ghost<int>) -> (p: i128)
    requires
        e_val <= EXP_LIMIT,
        !e_big ==> e == (if exp_neg { -(e_val as int) } else { e_val as int }),
        e_big && exp_neg ==> e < -EXP_LIMIT,
        e_big && !exp_neg ==> e > EXP_LIMIT,
    ensures
        -HUGE <= p <= HUGE,
        p == e - f || (p == HUGE && e - f >= HUGE) || (p == -HUGE && e - f <= -HUGE),
{
    if e_big {
        if exp_neg {
            -HUGE
        } else {
            HUGE
        }
    } else {
        let ev: i128 = if exp_neg { -(e_val as i128) } else { e_val as i128 };
        let pv: i128 = ev - (f as i128);
        if pv > HUGE {
            HUGE
        } else if pv < -HUGE {
            -HUGE
        } else {
            pv
        }
    }
}

/// A decimal number of beats, in ticks (see [`decimal_ticks`]), limited to
/// `±TICK_LIMIT`.
#[verifier::rlimit(40)]
pub fn parse_decimal_ticks(s: &String) -> (r: Option<i128>)
    ensures
        match decimal_ticks(s@) {
            Some(v) => r == Some(saturate(v) as i128),
            None => r is None,
        },
{
    let ghost t = s@;
    if !s.is_ascii() {
        proof {
            if decimal_form(t) is Some {
                lemma_decimal_form_ascii(t);
            }
        }
        return None;
    }
    let st: &str = s.as_str();
    let bytes = st.as_bytes();
    proof {
        vstd::string::is_ascii_spec_bytes(st);
        assert forall|k: int| 0 <= k < t.len() implies (#[trigger] bytes@[k]) as int == t[k] as int by {
            lemma_ascii_byte(t[k]);
        }
    }
    let len = bytes.len();
    assert(bytes_match(bytes@, t));
    let mut neg = false;
    let mut a: usize = 0;
    if len > 0 && (bytes[0] == 45u8 || bytes[0] == 43u8) {
        neg = bytes[0] == 45u8;
        a = 1;
    }
    assert(a as int == (if t.len() > 0 && (t[0] == '-' || t[0] == '+') { 1int } else { 0 }));
    let mut ds: Vec<u8> = Vec::new();
    let b = scan_digits(bytes, Ghost(t), a, &mut ds);
    assert(ds@ =~= t.subrange(a as int, b as int).map_values(|ch: char| digit_byte(ch)));
    let has_dot = b < len && bytes[b] == 46u8;
    let c = if has_dot {
        scan_digits(bytes, Ghost(t), b + 1, &mut ds)
    } else {
        b
    };
    let f: usize = if has_dot { c - b - 1 } else { 0 };
    assert(ds@ =~= t.subrange(a as int, b as int).map_values(|ch: char| digit_byte(ch)) + t.subrange(
        c - f,
        c as int,
    ).map_values(|ch: char| digit_byte(ch)));
    if ds.len() == 0 {
        return None;
    }
    let has_exp = c < len && (bytes[c] == 101u8 || bytes[c] == 69u8);
    if !has_exp {
        if c != len {
            return None;
        }
        let p = scale_power(false, 0, false, f, Ghost(0));
        proof {
            assert(decimal_form(t) == Some((neg, ds@, 0 - f)));
        }
        let mt = magnitude_ticks(&ds, p, Ghost(0 - f));
        return if neg {
            Some(-mt)
        } else {
            Some(mt)
        };
    }
    let signed = c + 1 < len && (bytes[c + 1] == 45u8 || bytes[c + 1] == 43u8);
    let exp_neg = signed && bytes[c + 1] == 45u8;
    let g: usize = if signed { c + 2 } else { c + 1 };
    let (h, e_val, e_big) = scan_exponent(bytes, Ghost(t), g);
    if h == g || h != len {
        return None;
    }
    let ghost e: int = if exp_neg { -digits_value(t, g as int, h as int) } else { digits_value(t, g as int, h as int) };
    proof {
        assert(decimal_form(t) == Some((neg, ds@, e - f)));
    }
    let p = scale_power(exp_neg, e_val, e_big, f, Ghost(e));
    let mt = magnitude_ticks(&ds, p, Ghost(e - f));
    if neg {
        Some(-mt)
    } else {
        Some(mt)
    }
}

/// `c` with ASCII capitals made small.
pub open spec fn lower(c: char) -> char {
    if 'A' <= c <= 'Z' {
        (c as int + 32) as char
    } else {
        c
    }
}

/// `s` spells the small-letter word `w`, in any case.
pub open spec fn spells(s: Seq<char>, w: Seq<char>) -> bool {
    s.len() == w.len() && forall|i: int| 0 <= i < s.len() ==> lower(#[trigger] s[i]) == w[i]
}

/// A YAML float that stands for positive infinity: after an optional
/// `+`, YAML's `.inf`, `.Inf` or `.INF`, or what Rust's float parser reads
/// as infinity, `inf` or `infinity` in any case.
pub open spec fn is_positive_infinity(s: Seq<char>) -> bool {
    let body = if s.len() > 0 && s[0] == '+' { s.subrange(1, s.len() as int) } else { s };
    ||| spells(body, seq!['i', 'n', 'f'])
    ||| spells(body, seq!['i', 'n', 'f', 'i', 'n', 'i', 't', 'y'])
    ||| body == seq!['.', 'i', 'n', 'f']
    ||| body == seq!['.', 'I', 'n', 'f']
    ||| body == seq!['.', 'I', 'N', 'F']
}

fn lower_byte(b: u8) -> (r: u8)
    ensures
        r as int == (if 65 <= b <= 90 { b + 32 } else { b as int }),
{
    if 65u8 <= b && b <= 90u8 {
        b + 32
    } else {
        b
    }
}

/// Whether the bytes of `t` from `start` on spell `w` (small letters) in
/// any case.
fn spells_at(bytes: &[u8], Ghost(t): Ghost<Seq<char>>, start: usize, w: &[u8], Ghost(ws): Ghost<Seq<char>>) -> (r: bool)
    requires
        bytes_match(bytes@, t),
        start <= bytes@.len(),
        w@.len() == ws.len(),
        forall|i: int| 0 <= i < ws.len() ==> (#[trigger] w@[i]) as int == ws[i] as int,
        forall|i: int| 0 <= i < ws.len() ==> !('A' <= #[trigger] ws[i] <= 'Z'),
    ensures
        r == spells(t.subrange(start as int, t.len() as int), ws),
{
    let ghost body = t.subrange(start as int, t.len() as int);
    let blen = bytes.len();
    if blen - start != w.len() {
        return false;
    }
    let mut i: usize = 0;
    while i < w.len()
        invariant
            i <= w@.len(),
            start + w@.len() == bytes@.len(),
            bytes@.len() <= usize::MAX,
            bytes_match(bytes@, t),
            w@.len() == ws.len(),
            body == t.subrange(start as int, t.len() as int),
            forall|k: int| 0 <= k < ws.len() ==> (#[trigger] w@[k]) as int == ws[k] as int,
            forall|k: int| 0 <= k < i ==> lower(#[trigger] body[k]) == ws[k],
        decreases w.len() - i,
    {
        let b = lower_byte(bytes[start + i]);
        assert(bytes@[start + i] as int == t[start + i] as int);
        assert(body[i as int] == t[start + i]);
        if b != w[i] {
            assert(w@[i as int] as int == ws[i as int] as int);
            assert(lower(body[i as int]) as int == b as int);
            return false;
        }
        assert(w@[i as int] as int == ws[i as int] as int);
        assert(lower(body[i as int]) as int == b as int);
        i = i + 1;
    }
    true
}

/// Whether the YAML float `s` stands for positive infinity; see
/// [`is_positive_infinity`].
pub fn is_infinity_word(s: &String) -> (r: bool)
    ensures
        r == is_positive_infinity(s@),
{
    let ghost t = s@;
    if !s.is_ascii() {
        proof {
            let body = if t.len() > 0 && t[0] == '+' { t.subrange(1, t.len() as int) } else { t };
            if is_positive_infinity(t) {
                assert forall|k: int| 0 <= k < t.len() implies '\0' <= #[trigger] t[k] <= '\u{7f}' by {
                    if t.len() > 0 && t[0] == '+' && k >= 1 {
                        assert(body[k - 1] == t[k]);
                    }
                    if !(t.len() > 0 && t[0] == '+' && k == 0) {
                        let j = if t.len() > 0 && t[0] == '+' { k - 1 } else { k };
                        assert(body[j] == t[k]);
                        if spells(body, seq!['i', 'n', 'f']) {
                            assert(lower(body[j]) == seq!['i', 'n', 'f'][j]);
                        } else if spells(body, seq!['i', 'n', 'f', 'i', 'n', 'i', 't', 'y']) {
                            assert(lower(body[j]) == seq!['i', 'n', 'f', 'i', 'n', 'i', 't', 'y'][j]);
                        }
                    }
                }
            }
        }
        return false;
    }
    let st: &str = s.as_str();
    let bytes = st.as_bytes();
    proof {
        vstd::string::is_ascii_spec_bytes(st);
        assert forall|k: int| 0 <= k < t.len() implies (#[trigger] bytes@[k]) as int == t[k] as int by {
            lemma_ascii_byte(t[k]);
        }
    }
    let len = bytes.len();
    let start: usize = if len > 0 && bytes[0] == 43u8 { 1 } else { 0 };
    assert(start == 1 ==> t[0] == '+');
    assert(start == 0 ==> !(t.len() > 0 && t[0] == '+'));
    assert(start == 0 ==> t.subrange(0, t.len() as int) =~= t);
    let ghost body = t.subrange(start as int, t.len() as int);
    let short: [u8; 3] = [105u8, 110u8, 102u8];
    let long: [u8; 8] = [105u8, 110u8, 102u8, 105u8, 110u8, 105u8, 116u8, 121u8];
    assert(short@ =~= seq![105u8, 110u8, 102u8]);
    assert(long@ =~= seq![105u8, 110u8, 102u8, 105u8, 110u8, 105u8, 116u8, 121u8]);
    let ghost w3: Seq<char> = seq!['i', 'n', 'f'];
    let ghost w8: Seq<char> = seq!['i', 'n', 'f', 'i', 'n', 'i', 't', 'y'];
    if spells_at(bytes, Ghost(t), start, &short, Ghost(w3)) {
        return true;
    }
    if spells_at(bytes, Ghost(t), start, &long, Ghost(w8)) {
        return true;
    }
    if len - start == 4 && bytes[start] == 46u8 {
        let b1 = bytes[start + 1];
        let b2 = bytes[start + 2];
        let b3 = bytes[start + 3];
        let r = (b1 == 105u8 && b2 == 110u8 && b3 == 102u8) || (b1 == 73u8 && b2 == 110u8 && b3 == 102u8) || (
        b1 == 73u8 && b2 == 78u8 && b3 == 70u8);
        proof {
            assert(bytes@[start as int] as int == t[start as int] as int);
            assert(bytes@[start + 1] as int == t[start + 1] as int);
            assert(bytes@[start + 2] as int == t[start + 2] as int);
            assert(bytes@[start + 3] as int == t[start + 3] as int);
            assert(body[0] == t[start as int]);
            assert(body[1] == t[start + 1]);
            assert(body[2] == t[start + 2]);
            assert(body[3] == t[start + 3]);
            if r {
                assert(body =~= seq!['.', 'i', 'n', 'f'] || body =~= seq!['.', 'I', 'n', 'f'] || body =~= seq![
                    '.',
                    'I',
                    'N',
                    'F',
                ]);
            }
        }
        return r;
    }
    proof {
        if len - start == 4 {
            assert(bytes@[start as int] as int == t[start as int] as int);
            assert(body[0] == t[start as int]);
            assert(body[0] != seq!['.', 'i', 'n', 'f'][0]);
        }
        assert(body.len() == len - start);
    }
    false
}

proof fn lemma_form_digits(s: Seq<char>)
    requires
        decimal_form(s) is Some,
    ensures
        match decimal_form(s) {
            Some(x) => all_digits(x.1),
            None => true,
        },
{
    let a: int = if s.len() > 0 && (s[0] == '-' || s[0] == '+') { 1 } else { 0 };
    let b = a + digit_run(s, a);
    let has_dot = b < s.len() && s[b] == '.';
    let c = if has_dot { b + 1 + digit_run(s, b + 1) } else { b };
    let f = c - b - (if has_dot { 1int } else { 0 });
    let x = s.subrange(a, b).map_values(|ch: char| digit_byte(ch));
    let y = s.subrange(c - f, c).map_values(|ch: char| digit_byte(ch));
    lemma_digit_run_bound(s, a);
    lemma_digit_run_bound(s, b + 1);
    let ds = match decimal_form(s) {
        Some(x) => x.1,
        None => Seq::empty(),
    };
    assert(ds == x + y);
    assert forall|k: int| 0 <= k < ds.len() implies #[trigger] ds[k] <= 9 by {
        if k < x.len() {
            lemma_digit_run_digits(s, a, a + k);
            assert(ds[k] == digit_byte(s[a + k]));
        } else {
            let j = k - x.len();
            assert(has_dot);
            lemma_digit_run_digits(s, b + 1, c - f + j);
            assert(ds[k] == y[j]);
            assert(y[j] == digit_byte(s[c - f + j]));
        }
    }
}

/// A decimal number of beats gives the tick nearest to it. Written as
/// `m * 10^p` beats with its sign apart, its ticks have that sign and a
/// size `t` that is exactly `m * TICKS_PER_BEAT * 10^p` for `p >= 0`; for
/// `p < 0`, `t` is within half a tick of the exact `m * TICKS_PER_BEAT /
/// 10^-p`, except that a number other than zero within half a tick of
/// zero is one tick; zero is no ticks.
pub proof fn law_decimal_ticks_nearest(s: Seq<char>)
    requires
        decimal_form(s) is Some,
    ensures
        ({
            let form = decimal_form(s)->0;
            let m = digits_number(form.1);
            let p = form.2;
            let t = if form.0 { -decimal_ticks(s)->0 } else { decimal_ticks(s)->0 };
            &&& t >= 0
            &&& m == 0 ==> t == 0
            &&& p >= 0 ==> t == m * TICKS_PER_BEAT * pow10(p as nat)
            &&& p < 0 && m > 0 ==> {
                let q = pow10((-p) as nat);
                ||| -q < 2 * t * q - 2 * m * TICKS_PER_BEAT <= q
                ||| t == 1 && 2 * m * TICKS_PER_BEAT < q
            }
        }),
{
    let form = decimal_form(s)->0;
    let m = digits_number(form.1);
    let p = form.2;
    lemma_form_digits(s);
    lemma_digits_number_bound(form.1);
    let x = m * TICKS_PER_BEAT;
    assert(x >= 0) by (nonlinear_arith)
        requires
            m >= 0,
            x == m * TICKS_PER_BEAT,
    ;
    if p >= 0 {
        assert(scaled_ticks(m, p) == x * pow10(p as nat));
        lemma_pow10_pos(p as nat);
        assert(x * pow10(p as nat) >= 0) by (nonlinear_arith)
            requires
                x >= 0,
                pow10(p as nat) >= 1,
        ;
        assert(m == 0 ==> x * pow10(p as nat) == 0) by (nonlinear_arith)
            requires
                x == m * TICKS_PER_BEAT,
        ;
        assert(m > 0 ==> x * pow10(p as nat) > 0) by (nonlinear_arith)
            requires
                x == m * TICKS_PER_BEAT,
                pow10(p as nat) >= 1,
        ;
    } else {
        let q = pow10((-p) as nat);
        lemma_pow10_pos((-p) as nat);
        vstd::arithmetic::div_mod::lemma_fundamental_div_mod(2 * x + q, 2 * q);
        let r0 = (2 * x + q) / (2 * q);
        let rm = (2 * x + q) % (2 * q);
        assert(2 * x + q == (2 * q) * r0 + rm);
        vstd::arithmetic::div_mod::lemma_div_pos_is_pos(2 * x + q, 2 * q);
        assert(2 * r0 * q == (2 * q) * r0) by (nonlinear_arith);
        assert(2 * m * TICKS_PER_BEAT == 2 * x) by (nonlinear_arith)
            requires
                x == m * TICKS_PER_BEAT,
        ;
        assert(round_div(x, q) == r0);
        assert(scaled_ticks(m, p) == r0);
        if m == 0 {
            assert(x == 0) by (nonlinear_arith)
                requires
                    x == m * TICKS_PER_BEAT,
                    m == 0,
            ;
            vstd::arithmetic::div_mod::lemma_basic_div(q, 2 * q);
        }
    }
}
} // verus!
