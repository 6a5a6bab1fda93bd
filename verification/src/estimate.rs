//! Fixed-point base-two logarithms for the entropy estimate: sixteen
//! fractional bits, with an exact integer part.

use vstd::arithmetic::div_mod::{
    lemma_div_is_ordered, lemma_div_multiples_vanish, lemma_multiply_divide_lt,
};
use vstd::arithmetic::power2::{
    lemma2_to64, lemma_pow2_adds, lemma_pow2_pos, lemma_pow2_strictly_increases, pow2,
};
use vstd::prelude::*;

verus! {

/// The position of a number's highest set bit; zero for zero and one.
pub open spec fn spec_log2_floor(n: nat) -> nat
    decreases n,
{
    if n <= 1 {
        0
    } else {
        1 + spec_log2_floor(n / 2)
    }
}

/// A positive number lies between the powers of two around its logarithm.
pub proof fn lemma_log2_floor_bounds(n: nat)
    requires
        n >= 1,
    ensures
        pow2(spec_log2_floor(n)) <= n < pow2(spec_log2_floor(n) + 1),
    decreases n,
{
    lemma2_to64();
    if n >= 2 {
        lemma_log2_floor_bounds(n / 2);
        let f = spec_log2_floor(n / 2);
        lemma_pow2_adds(f, 1);
        lemma_pow2_adds(f + 1, 1);
        assert(2 * (n / 2) <= n);
        assert(n <= 2 * (n / 2) + 1);
    }
}

/// Two raised to the given power, as a machine integer.
pub fn pow2_u128(e: u32) -> (r: u128)
    requires
        e <= 127,
    ensures
        r == pow2(e as nat),
{
    proof {
        lemma2_to64();
    }
    let mut acc: u128 = 1;
    let mut i: u32 = 0;
    while i < e
        invariant
            i <= e <= 127,
            acc == pow2(i as nat),
        decreases e - i,
    {
        proof {
            lemma2_to64();
            lemma_pow2_adds(i as nat, 1);
            lemma_pow2_strictly_increases(i as nat + 1, 128);
            lemma_pow2_adds(64, 64);
        }
        acc = acc * 2;
        i = i + 1;
    }
    acc
}

/// The mantissa of a positive number, normalized into `[2^63, 2^64)`:
/// scaled up for small numbers, rounded down for large ones.
pub open spec fn spec_mantissa(n: nat) -> nat {
    let e = spec_log2_floor(n);
    if e <= 63 {
        n * pow2((63 - e) as nat)
    } else {
        n / pow2((e - 63) as nat)
    }
}

/// One squaring step on a normalized mantissa: the square scaled back into
/// `[2^63, 2^64)`, dropping the bits below.
pub open spec fn spec_mant_next(m: nat) -> nat {
    if m * m >= pow2(127) {
        (m * m) / pow2(64)
    } else {
        (m * m) / pow2(63)
    }
}

/// The logarithm bit a squaring step yields: one exactly when the square
/// reaches the upper half of the range.
pub open spec fn spec_mant_bit(m: nat) -> nat {
    if m * m >= pow2(127) {
        1
    } else {
        0
    }
}

/// The first `k` fraction bits of the logarithm of a normalized mantissa,
/// most significant first.
pub open spec fn spec_frac16(m: nat, k: nat) -> nat
    decreases k,
{
    if k == 0 {
        0
    } else {
        spec_mant_bit(m) * pow2((k - 1) as nat) + spec_frac16(spec_mant_next(m), (k - 1) as nat)
    }
}

/// The base-two logarithm scaled by two to the sixteenth, as the exact
/// integer part followed by sixteen fraction bits from repeated squaring
/// of the truncated mantissa. A deterministic function of the argument.
pub open spec fn spec_log2_fixed16(n: nat) -> nat {
    65536 * spec_log2_floor(n) + spec_frac16(spec_mantissa(n), 16)
}

/// The base-two logarithm scaled by two to the sixteenth: exactly
/// `spec_log2_fixed16`, which lies between the scaled floor and the scaled
/// ceiling of the true logarithm.
pub fn log2_fixed16(n: u128) -> (r: u64)
    requires
        n >= 1,
    ensures
        r == spec_log2_fixed16(n as nat),
        65536 * spec_log2_floor(n as nat) <= r,
        r < 65536 * (spec_log2_floor(n as nat) + 1),
        spec_log2_floor(n as nat) <= 127,
{
    proof {
        lemma2_to64();
        lemma_pow2_adds(64, 64);
    }

    // integer part: count halvings down to one
    let mut e: u32 = 0;
    let mut m: u128 = n;
    while m >= 2
        invariant
            m >= 1,
            n >= 1,
            spec_log2_floor(n as nat) == e as nat + spec_log2_floor(m as nat),
            pow2(e as nat) * m as nat <= n as nat,
            e <= 127,
        decreases m,
    {
        proof {
            lemma2_to64();
            lemma_pow2_adds(e as nat, 1);
            lemma_pow2_adds(64, 64);
            lemma_pow2_pos(e as nat);
            assert(2 * (m as nat / 2) <= m as nat);
            assert(pow2(e as nat + 1) * (m as nat / 2) <= pow2(e as nat) * m as nat) by (nonlinear_arith)
                requires
                    pow2(e as nat + 1) == 2 * pow2(e as nat),
                    2 * (m as nat / 2) <= m as nat,
                    pow2(e as nat) >= 1,
            ;
            // the exponent cannot reach the word width
            assert(pow2(e as nat) * 2 <= pow2(e as nat) * m as nat) by (nonlinear_arith)
                requires
                    m >= 2,
                    pow2(e as nat) >= 1,
            ;
            if e + 1 >= 128 {
                lemma_pow2_strictly_increases(127, e as nat + 1);
                assert(false);
            }
        }
        m = m / 2;
        e = e + 1;
    }
    proof {
        assert(spec_log2_floor(n as nat) == e as nat);
        lemma_log2_floor_bounds(n as nat);
    }

    // mantissa normalized into the top half of a 64-bit word
    let mant0: u64 = if e <= 63 {
        let factor = pow2_u128(63 - e);
        proof {
            lemma_pow2_adds(e as nat, (63 - e) as nat);
            lemma_pow2_adds(e as nat + 1, (63 - e) as nat);
            lemma_pow2_pos((63 - e) as nat);
            assert(pow2(e as nat) * pow2((63 - e) as nat) <= n as nat * pow2((63 - e) as nat))
                by (nonlinear_arith)
                requires
                    pow2(e as nat) <= n as nat,
                    pow2((63 - e) as nat) >= 1,
            ;
            assert(n as nat * pow2((63 - e) as nat) < pow2(e as nat + 1) * pow2((63 - e) as nat))
                by (nonlinear_arith)
                requires
                    (n as nat) < pow2(e as nat + 1),
                    pow2((63 - e) as nat) >= 1,
            ;
        }
        proof {
            assert(n as nat * pow2((63 - e) as nat) == spec_mantissa(n as nat));
        }
        (n * factor) as u64
    } else {
        let divisor = pow2_u128(e - 63);
        proof {
            lemma_pow2_adds(63, (e - 63) as nat);
            lemma_pow2_adds((e - 63) as nat, 63);
            lemma_pow2_adds(64, (e - 63) as nat);
            lemma_pow2_adds((e - 63) as nat, 64);
            lemma_pow2_pos((e - 63) as nat);
            assert(63 + (e - 63) as nat == e as nat);
            assert((e - 63) as nat + 64 == e as nat + 1);
            lemma_div_is_ordered(pow2(e as nat) as int, n as int, pow2((e - 63) as nat) as int);
            lemma_div_multiples_vanish(pow2(63) as int, pow2((e - 63) as nat) as int);
            assert(pow2(e as nat) as int == pow2((e - 63) as nat) as int * pow2(63) as int);
            lemma_multiply_divide_lt(n as int, pow2((e - 63) as nat) as int, pow2(64) as int);
        }
        proof {
            assert(n as nat / pow2((e - 63) as nat) == spec_mantissa(n as nat));
        }
        (n / divisor) as u64
    };

    // fraction: square the mantissa sixteen times, taking one bit each time
    let two127 = pow2_u128(127);
    let two64 = pow2_u128(64);
    let two63 = pow2_u128(63);
    let ghost m0 = spec_mantissa(n as nat);
    let mut mant: u64 = mant0;
    let mut frac: u64 = 0;
    let mut i: u32 = 0;
    while i < 16
        invariant
            i <= 16,
            two127 == pow2(127),
            two64 == pow2(64),
            two63 == pow2(63),
            pow2(63) <= mant as nat,
            frac < pow2(i as nat),
            spec_frac16(m0, 16) == (frac as nat) * pow2((16 - i) as nat) + spec_frac16(
                mant as nat,
                (16 - i) as nat,
            ),
        decreases 16 - i,
    {
        let ghost old_mant = mant as nat;
        let ghost old_frac = frac as nat;
        proof {
            lemma2_to64();
            lemma_pow2_adds(64, 64);
            lemma_pow2_adds(63, 63);
            lemma_pow2_adds(64, 63);
            lemma_pow2_adds(63, 64);
            lemma_pow2_adds(i as nat, 1);
            assert(pow2(126) <= (mant as nat) * (mant as nat)) by (nonlinear_arith)
                requires
                    pow2(63) <= mant as nat,
                    pow2(126) == pow2(63) * pow2(63),
            ;
            assert((mant as nat) * (mant as nat) < pow2(128)) by (nonlinear_arith)
                requires
                    (mant as nat) < pow2(64),
                    pow2(128) == pow2(64) * pow2(64),
            ;
        }
        let sq: u128 = (mant as u128) * (mant as u128);
        if sq >= two127 {
            proof {
                lemma_div_is_ordered(pow2(127) as int, sq as int, pow2(64) as int);
                lemma_div_multiples_vanish(pow2(63) as int, pow2(64) as int);
                lemma_multiply_divide_lt(sq as int, pow2(64) as int, pow2(64) as int);
            }
            mant = (sq / two64) as u64;
            frac = frac * 2 + 1;
        } else {
            proof {
                lemma_div_is_ordered(pow2(126) as int, sq as int, pow2(63) as int);
                lemma_div_multiples_vanish(pow2(63) as int, pow2(63) as int);
                lemma_multiply_divide_lt(sq as int, pow2(63) as int, pow2(64) as int);
            }
            mant = (sq / two63) as u64;
            frac = frac * 2;
        }
        proof {
            lemma_pow2_adds((15 - i) as nat, 1);
            assert(mant as nat == spec_mant_next(old_mant));
            assert(frac as nat == 2 * old_frac + spec_mant_bit(old_mant));
            assert(spec_frac16(old_mant, (16 - i) as nat) == spec_mant_bit(old_mant) * pow2(
                (15 - i) as nat,
            ) + spec_frac16(spec_mant_next(old_mant), (15 - i) as nat));
            assert(old_frac * pow2((16 - i) as nat) + spec_mant_bit(old_mant) * pow2(
                (15 - i) as nat,
            ) == (2 * old_frac + spec_mant_bit(old_mant)) * pow2((15 - i) as nat))
                by (nonlinear_arith)
                requires
                    pow2((16 - i) as nat) == 2 * pow2((15 - i) as nat),
            ;
        }
        i = i + 1;
    }

    proof {
        lemma2_to64();
        assert(spec_frac16(mant as nat, 0) == 0);
        assert((frac as nat) * pow2(0) == frac as nat) by (nonlinear_arith)
            requires
                pow2(0) == 1,
        ;
        assert(frac as nat == spec_frac16(m0, 16));
    }
    (e as u64) * 65536 + frac
}

/// The scaled product rounded to the nearest integer, half rounding up,
/// saturating at the machine's largest value.
pub fn scaled_round_sat(l: u128, lg: u64) -> (r: usize)
    requires
        l <= 0xffff_ffff_ffff_ffff,
        lg < 0x80_0000,
    ensures
        ({
            let v = ((l * lg) as int + 32768) / 65536;
            &&& (v > usize::MAX as int ==> r == usize::MAX)
            &&& (v <= usize::MAX as int ==> r as int == v)
        }),
{
    proof {
        assert((l as int) * (lg as int) < 0x10000000000000000 * 0x800000) by (nonlinear_arith)
            requires
                l <= 0xffff_ffff_ffff_ffff,
                lg < 0x80_0000,
        ;
    }
    let prod: u128 = l * (lg as u128);
    let v: u128 = (prod + 32768) / 65536;
    if v > usize::MAX as u128 {
        usize::MAX
    } else {
        v as usize
    }
}

} // verus!
