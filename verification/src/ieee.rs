//! Arithmetic on the bit patterns of IEEE 754 numbers, in integers only:
//! the conversion of a single-precision sample to 16-bit PCM, the
//! double-precision encoding of a whole number, and the duration of a count
//! of samples as double-precision arithmetic gives it.

use vstd::prelude::*;
use vstd::arithmetic::power2::{pow2, lemma_pow2_unfold, lemma2_to64, lemma2_to64_rest};

verus! {

/// `v` halved `n` times, each time rounding down: `v / 2^n`.
pub open spec fn halved(v: nat, n: nat) -> nat
    decreases n,
{
    if n == 0 {
        v
    } else {
        halved(v / 2, (n - 1) as nat)
    }
}

/// `p` rounded to the nearest multiple of `unit`, a tie going to the even
/// multiple.
pub open spec fn round_half_even(p: nat, unit: nat) -> nat {
    let q = p / unit;
    let r = p % unit;
    if 2 * r > unit || (2 * r == unit && q % 2 == 1) {
        (q + 1) * unit
    } else {
        q * unit
    }
}

/// The sign bit of a single-precision pattern.
pub open spec fn single_negative(bits: u32) -> bool {
    bits >= 0x8000_0000
}

/// The biased exponent of a single-precision pattern.
pub open spec fn single_exponent(bits: u32) -> nat {
    ((bits as nat) / 0x80_0000) % 256
}

/// The fraction field of a single-precision pattern.
pub open spec fn single_fraction(bits: u32) -> nat {
    (bits as nat) % 0x80_0000
}

/// The magnitude of the PCM sample for a single-precision sample: the
/// number is limited to the range from -1 to 1 and multiplied by 32767 in
/// single precision, and the product loses its fraction. A pattern that is
/// not a number gives 0.
///
/// A normal number below 1 is `m * 2^(e - 150)` with a significand `m` of 24
/// bits; its exact product with 32767 has 38 or 39 bits, of which single
/// precision keeps 24, rounding to nearest with ties to even.
pub open spec fn pcm_magnitude(bits: u32) -> nat {
    let e = single_exponent(bits);
    let f = single_fraction(bits);
    if e == 255 && f != 0 {
        0
    } else if e >= 127 {
        32767
    } else if e == 0 {
        0
    } else {
        let product = (0x80_0000 + f) * 32767;
        let unit: nat = if product < 0x40_0000_0000 {
            0x4000
        } else {
            0x8000
        };
        halved(round_half_even(product as nat, unit), (150 - e) as nat)
    }
}

/// The PCM sample for a single-precision sample given by its bit pattern.
pub open spec fn pcm_of_bits(bits: u32) -> int {
    if single_negative(bits) {
        -(pcm_magnitude(bits) as int)
    } else {
        pcm_magnitude(bits) as int
    }
}

/// Halves `v` `n` times.
fn halve(v: u64, n: u32) -> (r: u64)
    ensures
        r == halved(v as nat, n as nat),
{
    let mut r: u64 = v;
    let mut left: u32 = n;
    while left > 0
        invariant
            halved(r as nat, left as nat) == halved(v as nat, n as nat),
        decreases left,
    {
        r = r / 2;
        left = left - 1;
    }
    r
}

/// Converts a single-precision sample, given by its bit pattern, to 16-bit
/// PCM: the sample is limited to the range from -1 to 1, scaled by 32767
/// and cut to a whole number.
pub fn pcm_from_bits(bits: u32) -> (r: i16)
    ensures
        r == pcm_of_bits(bits),
        -32767 <= r <= 32767,
{
    let negative = bits >= 0x8000_0000;
    let e: u32 = (bits / 0x80_0000) % 256;
    let f: u32 = bits % 0x80_0000;
    let magnitude: u64 = if e == 255 && f != 0 {
        0
    } else if e >= 127 {
        32767
    } else if e == 0 {
        0
    } else {
        let product: u64 = (0x80_0000 + f as u64) * 32767;
        let unit: u64 = if product < 0x40_0000_0000 {
            0x4000
        } else {
            0x8000
        };
        let q: u64 = product / unit;
        let rest: u64 = product % unit;
        let rounded: u64 = if 2 * rest > unit || (2 * rest == unit && q % 2 == 1) {
            (q + 1) * unit
        } else {
            q * unit
        };
        proof {
            assert(rounded <= 0x7F_FFFF_8000);
            lemma_halved_bound(rounded as nat, (150 - e) as nat);
        }
        halve(rounded, 150 - e)
    };
    if negative {
        -(magnitude as i16)
    } else {
        magnitude as i16
    }
}

/// Halving gives no more than there was, and no more for a smaller number
/// than for a larger one.
pub proof fn lemma_halved_monotone(a: nat, b: nat, n: nat)
    requires
        a <= b,
    ensures
        halved(a, n) <= halved(b, n),
        halved(b, n) <= b,
    decreases n,
{
    if n > 0 {
        lemma_halved_monotone(a / 2, b / 2, (n - 1) as nat);
    }
}

/// Halving `a + b` times is halving `a` times and then `b` times.
pub proof fn lemma_halved_split(v: nat, a: nat, b: nat)
    ensures
        halved(v, a + b) == halved(halved(v, a), b),
    decreases a,
{
    if a > 0 {
        lemma_halved_split(v / 2, (a - 1) as nat, b);
    }
}

/// A number of at most `2^39 - 2^15`, halved 24 times or more, is at most
/// 32767.
pub proof fn lemma_halved_bound(v: nat, n: nat)
    requires
        v <= 0x7F_FFFF_8000,
        24 <= n,
    ensures
        halved(v, n) <= 32767,
{
    lemma_halved_split(v, 24, (n - 24) as nat);
    lemma_halved_monotone(halved(v, 24), halved(v, 24), (n - 24) as nat);
    lemma_halved_monotone(v, 0x7F_FFFF_8000, 24);
    assert(halved(0x7F_FFFF_8000, 24) == 32767) by {
        reveal_with_fuel(halved, 25);
    }
}

/// A significand brought into the range from `2^52` up to `2^53` by
/// doubling, with the number of doublings so far: `m` and `s` as they are
/// once `m` has reached `2^52` or `s` has reached 52.
pub open spec fn normalized(m: nat, s: nat) -> (nat, nat)
    decreases 52 - s,
{
    if s >= 52 || m >= 0x10_0000_0000_0000 {
        (m, s)
    } else {
        normalized(2 * m, s + 1)
    }
}

/// The double-precision bit pattern of the whole number `v` below `2^53`:
/// zero for zero; else the significand `v * 2^s` in the range from `2^52`
/// up to `2^53`, without its leading bit, under the biased exponent
/// `1075 - s`.
pub open spec fn double_bits_of(v: nat) -> nat {
    if v == 0 {
        0
    } else {
        let (m, s) = normalized(v, 0);
        ((1075 - s) * 0x10_0000_0000_0000 + (m - 0x10_0000_0000_0000)) as nat
    }
}

/// The double-precision bit pattern of a whole number below `2^53`, which
/// double precision holds exactly.
pub fn double_bits(v: u64) -> (bits: u64)
    requires
        v < 0x20_0000_0000_0000,
    ensures
        bits == double_bits_of(v as nat),
{
    if v == 0 {
        return 0;
    }
    let mut m: u64 = v;
    let mut s: u64 = 0;
    proof {
        lemma2_to64();
    }
    while s < 52 && m < 0x10_0000_0000_0000
        invariant
            s <= 52,
            1 <= v,
            m < 0x20_0000_0000_0000,
            m == v * pow2(s as nat),
            normalized(m as nat, s as nat) == normalized(v as nat, 0),
        decreases 52 - s,
    {
        proof {
            lemma_pow2_unfold((s + 1) as nat);
            assert(2 * (v * pow2(s as nat)) == v * (2 * pow2(s as nat))) by (nonlinear_arith);
        }
        m = m * 2;
        s = s + 1;
    }
    proof {
        if s == 52 {
            lemma2_to64_rest();
            assert(v * pow2(52) >= pow2(52)) by (nonlinear_arith)
                requires
                    v >= 1,
            ;
        }
    }
    (1075 - s) * 0x10_0000_0000_0000 + (m - 0x10_0000_0000_0000)
}

/// The pattern that `double_bits_of` gives stands for the number itself:
/// its exponent field `e` lies between 1023 and 1075, and its fraction
/// field `f`, with the leading bit restored, is the number times
/// `2^(1075 - e)`.
pub proof fn lemma_double_bits_exact(v: nat)
    requires
        1 <= v < 0x20_0000_0000_0000,
    ensures
        1023 <= double_bits_of(v) / 0x10_0000_0000_0000 <= 1075,
        0x10_0000_0000_0000 + double_bits_of(v) % 0x10_0000_0000_0000 == v * pow2(
            (1075 - double_bits_of(v) / 0x10_0000_0000_0000) as nat,
        ),
{
    lemma2_to64();
    lemma_normalized(v, v, 0);
    let (m, s) = normalized(v, 0);
    let b = double_bits_of(v);
    assert(b == (1075 - s) * 0x10_0000_0000_0000 + (m - 0x10_0000_0000_0000));
    assert(b / 0x10_0000_0000_0000 == 1075 - s && b % 0x10_0000_0000_0000 == m
        - 0x10_0000_0000_0000) by {
        let f = m - 0x10_0000_0000_0000;
        let e = 1075 - s;
        assert(0 <= f < 0x10_0000_0000_0000);
        vstd::arithmetic::div_mod::lemma_fundamental_div_mod_converse(
            b as int,
            0x10_0000_0000_0000,
            e as int,
            f as int,
        );
    }
}

/// Normalizing `v * 2^s` from `s` doublings on, for a `v` from 1 up to
/// `2^53`, ends with `v * 2^t` in the range from `2^52` up to `2^53`, for
/// the number `t` of doublings that it reports.
pub proof fn lemma_normalized(v: nat, m: nat, s: nat)
    requires
        1 <= v,
        s <= 52,
        m == v * pow2(s),
        m < 0x20_0000_0000_0000,
    ensures
        normalized(m, s).1 <= 52,
        normalized(m, s).0 == v * pow2(normalized(m, s).1),
        0x10_0000_0000_0000 <= normalized(m, s).0 < 0x20_0000_0000_0000,
    decreases 52 - s,
{
    if s >= 52 {
        lemma2_to64_rest();
        assert(v * pow2(52) >= pow2(52)) by (nonlinear_arith)
            requires
                v >= 1,
        ;
    } else if m >= 0x10_0000_0000_0000 {
    } else {
        lemma_pow2_unfold(s + 1);
        assert(2 * (v * pow2(s)) == v * (2 * pow2(s))) by (nonlinear_arith);
        lemma_normalized(v, 2 * m, s + 1);
    }
}

/// The whole number nearest to `num / den`, a tie going to the even one.
pub open spec fn nearest_quotient(num: nat, den: nat) -> nat {
    let q = num / den;
    let r = num % den;
    if 2 * r > den || (2 * r == den && q % 2 == 1) {
        q + 1
    } else {
        q
    }
}

/// A count of samples brought to scale for the division by the sample
/// rate: `scaled` doubled, and `shift` counted up, until the quotient by
/// 48000 has reached `2^52`, which takes 68 doublings at most.
pub open spec fn scaled_for_rate(scaled: nat, shift: nat) -> (nat, nat)
    decreases 68 - shift,
{
    if shift >= 68 || scaled / 48000 >= 0x10_0000_0000_0000 {
        (scaled, shift)
    } else {
        scaled_for_rate(2 * scaled, shift + 1)
    }
}

/// The double-precision bit pattern of the duration, in milliseconds, of
/// `samples` samples at 48000 samples per second, as double-precision
/// arithmetic gives it: the count is divided by 48000, the quotient rounded
/// to a double, multiplied by 1000, and the product rounded to a double,
/// each time to the nearest with ties to even.
///
/// The quotient is `m * 2^-s` for the significand `m` that the division of
/// `samples * 2^s` by 48000 gives; the product `1000 * m` has 62 or 63
/// bits, of which a double keeps 53.
pub open spec fn duration_bits_of(samples: nat) -> nat {
    if samples == 0 {
        0
    } else {
        let (scaled, s) = scaled_for_rate(samples, 0);
        let m = nearest_quotient(scaled, 48000);
        let product = 1000 * m;
        let t: nat = if product < 0x4000_0000_0000_0000 {
            9
        } else {
            10
        };
        let unit: nat = if t == 9 {
            0x200
        } else {
            0x400
        };
        let kept = nearest_quotient(product, unit);
        if kept == 0x20_0000_0000_0000 {
            ((1076 + t - s) * 0x10_0000_0000_0000) as nat
        } else {
            ((1075 + t - s) * 0x10_0000_0000_0000 + (kept - 0x10_0000_0000_0000)) as nat
        }
    }
}

/// The whole number nearest to `num / den`, a tie going to the even one.
fn divide_to_nearest(num: u128, den: u128) -> (q: u128)
    requires
        den > 0,
        den <= 0x1_0000,
        num < 0x1_0000_0000_0000_0000_0000,
    ensures
        q == nearest_quotient(num as nat, den as nat),
{
    let q = num / den;
    let r = num % den;
    if 2 * r > den || (2 * r == den && q % 2 == 1) {
        q + 1
    } else {
        q
    }
}

/// The double-precision bit pattern of the duration, in milliseconds, of
/// `samples` samples at 48000 samples per second, computed as
/// double-precision arithmetic computes `samples / 48000 * 1000`.
pub fn duration_bits(samples: u64) -> (bits: u64)
    requires
        samples < 0x100_0000_0000,
    ensures
        bits == duration_bits_of(samples as nat),
{
    if samples == 0 {
        return 0;
    }
    let mut scaled: u128 = samples as u128;
    let mut s: u64 = 0;
    proof {
        lemma2_to64();
    }
    while s < 68 && scaled / 48000 < 0x10_0000_0000_0000
        invariant
            s <= 68,
            scaled >= pow2(s as nat),
            scaled / 48000 < 0x20_0000_0000_0000,
            scaled_for_rate(scaled as nat, s as nat) == scaled_for_rate(samples as nat, 0),
        decreases 68 - s,
    {
        proof {
            lemma_pow2_unfold((s + 1) as nat);
        }
        scaled = scaled * 2;
        s = s + 1;
    }
    proof {
        if s == 68 {
            lemma2_to64();
            lemma_pow2_unfold(68);
            lemma_pow2_unfold(67);
            lemma_pow2_unfold(66);
            lemma_pow2_unfold(65);
        }
        assert(scaled / 48000 >= 0x10_0000_0000_0000);
    }
    let m: u128 = divide_to_nearest(scaled, 48000);
    let product: u128 = 1000 * m;
    let t: u64 = if product < 0x4000_0000_0000_0000 {
        9
    } else {
        10
    };
    let unit: u128 = if t == 9 {
        0x200
    } else {
        0x400
    };
    let kept: u128 = divide_to_nearest(product, unit);
    if kept == 0x20_0000_0000_0000 {
        (1076 + t - s) * 0x10_0000_0000_0000
    } else {
        (1075 + t - s) * 0x10_0000_0000_0000 + (kept as u64 - 0x10_0000_0000_0000)
    }
}

/// Halving `n` times is dividing by `2^n`, rounding down.
pub proof fn lemma_halved_is_quotient(v: nat, n: nat)
    ensures
        pow2(n) > 0,
        halved(v, n) == v / pow2(n),
    decreases n,
{
    vstd::arithmetic::power2::lemma_pow2_pos(n);
    if n == 0 {
        lemma2_to64();
    } else {
        lemma_halved_is_quotient(v / 2, (n - 1) as nat);
        lemma_pow2_unfold(n);
        vstd::arithmetic::div_mod::lemma_div_denominator(v as int, 2, pow2((n - 1) as nat) as int);
    }
}

/// Rounding to the nearest multiple of `unit` moves a number by half of
/// `unit` at most.
pub proof fn lemma_round_half_even_bound(p: nat, unit: nat)
    requires
        unit > 0,
    ensures
        2 * round_half_even(p, unit) <= 2 * p + unit,
        2 * p <= 2 * round_half_even(p, unit) + unit,
        nearest_quotient(p, unit) * unit == round_half_even(p, unit),
{
    vstd::arithmetic::div_mod::lemma_fundamental_div_mod(p as int, unit as int);
    vstd::arithmetic::div_mod::lemma_mod_pos_bound(p as int, unit as int);
    let q = p / unit;
    let r = p % unit;
    assert(p == unit * q + r);
    assert((q + 1) * unit == unit * q + unit) by (nonlinear_arith);
    assert(q * unit == unit * q) by (nonlinear_arith);
}

/// The PCM magnitude of a normal sample below 1, against the real number:
/// the sample is `p * 2^-n` in units of 1/32767, for the whole numbers `p`
/// and `n` of its bit pattern, and the magnitude `r` is that number cut to
/// a whole number, up to the rounding of the product in single precision,
/// which moves it by `2^14 * 2^-n` at most, less than a thousandth:
/// `r <= p * 2^-n + 2^14 * 2^-n` and `p * 2^-n - 2^14 * 2^-n < r + 1`.
pub proof fn lemma_pcm_magnitude_bound(bits: u32)
    requires
        0 < single_exponent(bits) < 127,
    ensures
        ({
            let n = (150 - single_exponent(bits)) as nat;
            let p = (0x80_0000 + single_fraction(bits)) * 32767;
            let r = pcm_magnitude(bits);
            &&& n >= 24
            &&& r * pow2(n) <= p + 0x4000
            &&& p < (r + 1) * pow2(n) + 0x4000
        }),
{
    let n = (150 - single_exponent(bits)) as nat;
    let p = ((0x80_0000 + single_fraction(bits)) * 32767) as nat;
    let unit: nat = if p < 0x40_0000_0000 {
        0x4000
    } else {
        0x8000
    };
    let rounded = round_half_even(p, unit);
    let r = pcm_magnitude(bits);
    assert(r == halved(rounded, n));
    lemma_round_half_even_bound(p, unit);
    lemma_halved_is_quotient(rounded, n);
    vstd::arithmetic::div_mod::lemma_fundamental_div_mod(rounded as int, pow2(n) as int);
    vstd::arithmetic::div_mod::lemma_mod_pos_bound(rounded as int, pow2(n) as int);
    let d = pow2(n);
    assert(rounded == d * r + rounded % d);
    assert(r * d == d * r) by (nonlinear_arith);
    assert((r + 1) * d == d * r + d) by (nonlinear_arith);
}

/// Scaling a count of samples for the division by the sample rate ends
/// with the count times `2^s` for the number `s` of doublings, and with a
/// quotient by 48000 from `2^52` up to `2^53`.
pub proof fn lemma_scaled_for_rate(v: nat, scaled: nat, shift: nat)
    requires
        1 <= v,
        shift <= 68,
        scaled == v * pow2(shift),
        scaled / 48000 < 0x20_0000_0000_0000,
    ensures
        scaled_for_rate(scaled, shift).1 <= 68,
        scaled_for_rate(scaled, shift).0 == v * pow2(scaled_for_rate(scaled, shift).1),
        0x10_0000_0000_0000 <= scaled_for_rate(scaled, shift).0 / 48000 < 0x20_0000_0000_0000,
    decreases 68 - shift,
{
    if shift >= 68 {
        lemma2_to64();
        lemma_pow2_unfold(68);
        lemma_pow2_unfold(67);
        lemma_pow2_unfold(66);
        lemma_pow2_unfold(65);
        assert(v * pow2(68) >= pow2(68)) by (nonlinear_arith)
            requires
                v >= 1,
        ;
    } else if scaled / 48000 >= 0x10_0000_0000_0000 {
    } else {
        lemma_pow2_unfold(shift + 1);
        assert(2 * (v * pow2(shift)) == v * (2 * pow2(shift))) by (nonlinear_arith);
        lemma_scaled_for_rate(v, 2 * scaled, shift + 1);
    }
}

/// The duration's double against the real number. The pattern stands for
/// `sig * 2^(e - 1075)` milliseconds, for its exponent field `e` and its
/// fraction field with the leading bit restored, `sig`. Brought to the
/// scale `2^s` of the division, at which the count of samples is `scaled`,
/// and multiplied by 48000, that is `48000 * sig * 2^t` with `t = e + s -
/// 1075`, against `1000 * scaled` for the duration itself: the two differ
/// by 48576000 at most, where `1000 * scaled` is `48000000 * 2^52` at
/// least, so that the double is off by less than one part in `2^51`.
pub proof fn lemma_duration_bound(samples: nat)
    requires
        1 <= samples < 0x100_0000_0000,
    ensures
        ({
            let (scaled, s) = scaled_for_rate(samples, 0);
            let e = duration_bits_of(samples) / 0x10_0000_0000_0000;
            let sig = 0x10_0000_0000_0000 + duration_bits_of(samples) % 0x10_0000_0000_0000;
            let t = (e + s - 1075) as nat;
            &&& scaled == samples * pow2(s)
            &&& scaled >= 48000 * 0x10_0000_0000_0000
            &&& 1075 + 9 <= e + s <= 1075 + 11
            &&& 48000 * (sig * pow2(t)) <= 1000 * scaled + 48_576_000
            &&& 1000 * scaled <= 48000 * (sig * pow2(t)) + 48_576_000
        }),
{
    lemma2_to64();
    lemma_scaled_for_rate(samples, samples, 0);
    let (scaled, s) = scaled_for_rate(samples, 0);
    let m = nearest_quotient(scaled, 48000);
    lemma_round_half_even_bound(scaled, 48000);
    vstd::arithmetic::div_mod::lemma_fundamental_div_mod(scaled as int, 48000);
    vstd::arithmetic::div_mod::lemma_mod_pos_bound(scaled as int, 48000);
    assert(0x10_0000_0000_0000 <= m <= 0x20_0000_0000_0000);
    let product = 1000 * m;
    let t: nat = if product < 0x4000_0000_0000_0000 {
        9
    } else {
        10
    };
    let unit: nat = if t == 9 {
        0x200
    } else {
        0x400
    };
    assert(unit == pow2(t));
    let kept = nearest_quotient(product, unit);
    lemma_round_half_even_bound(product, unit);
    vstd::arithmetic::div_mod::lemma_fundamental_div_mod(product as int, unit as int);
    vstd::arithmetic::div_mod::lemma_mod_pos_bound(product as int, unit as int);
    assert(0x10_0000_0000_0000 <= kept <= 0x20_0000_0000_0000);
    let b = duration_bits_of(samples);
    let high: int = 0x10_0000_0000_0000;
    let whole = kept * unit;
    assert(2 * whole <= 2 * product + unit && 2 * product <= 2 * whole + unit);
    assert(2 * (m * 48000) <= 2 * scaled + 48000 && 2 * scaled <= 2 * (m * 48000) + 48000);
    assert(48000 * whole <= 1000 * scaled + 48_576_000 && 1000 * scaled <= 48000 * whole
        + 48_576_000) by (nonlinear_arith)
        requires
            2 * whole <= 2 * (1000 * m) + unit,
            2 * (1000 * m) <= 2 * whole + unit,
            2 * (m * 48000) <= 2 * scaled + 48000,
            2 * scaled <= 2 * (m * 48000) + 48000,
            unit <= 1024,
    ;
    if kept == 0x20_0000_0000_0000 {
        assert(b == (1076 + t - s) * high);
        vstd::arithmetic::div_mod::lemma_fundamental_div_mod_converse(
            b as int,
            high,
            (1076 + t - s) as int,
            0,
        );
        lemma_pow2_unfold(t + 1);
        assert(high * pow2(t + 1) == kept * unit) by (nonlinear_arith)
            requires
                pow2(t + 1) == 2 * unit,
                kept == 2 * high,
        ;
    } else {
        assert(b == (1075 + t - s) * high + (kept - high));
        vstd::arithmetic::div_mod::lemma_fundamental_div_mod_converse(
            b as int,
            high,
            (1075 + t - s) as int,
            kept - high,
        );
    }
}

} // verus!
