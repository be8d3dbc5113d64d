//! Fixed-point helpers: the WAD base unit and exact wide multiply-then-divide.
use vstd::prelude::*;
use vstd::arithmetic::div_mod::{
    lemma_fundamental_div_mod,
    lemma_fundamental_div_mod_converse,
    lemma_mod_breakdown,
};

verus! {

/// Fixed-point base unit, 10^18.
pub const WAD: u128 = 1_000_000_000_000_000_000;

const HALF_BASE: u128 = 18_446_744_073_709_551_616;

const TOP_BIT: u128 = 170_141_183_460_469_231_731_687_303_715_884_105_728;

/// 2^128 as a mathematical integer.
pub open spec fn two_128() -> int {
    u128::MAX as int + 1
}

/// Whether a mathematical integer fits in a `u128`.
pub open spec fn fits_u128(x: int) -> bool {
    0 <= x <= u128::MAX
}

/// Floor of `a * b / c`.
pub open spec fn mul_div_spec(a: int, b: int, c: int) -> int {
    (a * b) / c
}

/// Full 256-bit product `a * b`, returned as its high and low 128-bit halves.
pub fn full_mul(a: u128, b: u128) -> (r: (u128, u128))
    ensures
        r.0 * two_128() + r.1 == a * b,
{
    let h: u128 = HALF_BASE;
    let a0 = a % h;
    let a1 = a / h;
    let b0 = b % h;
    let b1 = b / h;
    assert(a0 < h && b0 < h && a1 < h && b1 < h);
    assert(a == a1 * h + a0 && b == b1 * h + b0);
    assert(a0 * b0 < h * h) by (nonlinear_arith) requires a0 < h, b0 < h;
    assert(a0 * b1 < h * h) by (nonlinear_arith) requires a0 < h, b1 < h;
    assert(a1 * b0 < h * h) by (nonlinear_arith) requires a1 < h, b0 < h;
    assert(a1 * b1 < h * h) by (nonlinear_arith) requires a1 < h, b1 < h;
    let p00 = a0 * b0;
    let p01 = a0 * b1;
    let p10 = a1 * b0;
    let p11 = a1 * b1;
    let t = p00 / h + p01 % h + p10 % h;
    let lo = (t % h) * h + p00 % h;
    let ghost hi_int: int = p11 + p01 / h + p10 / h + t / h;
    assert(a * b == p11 * (h * h) + (p01 + p10) * h + p00) by (nonlinear_arith)
        requires
            a == a1 * h + a0,
            b == b1 * h + b0,
            p00 == a0 * b0,
            p01 == a0 * b1,
            p10 == a1 * b0,
            p11 == a1 * b1,
    ;
    assert(p00 == (p00 / h) * h + p00 % h) by {
        lemma_fundamental_div_mod(p00 as int, h as int);
    }
    assert(p01 == (p01 / h) * h + p01 % h) by {
        lemma_fundamental_div_mod(p01 as int, h as int);
    }
    assert(p10 == (p10 / h) * h + p10 % h) by {
        lemma_fundamental_div_mod(p10 as int, h as int);
    }
    assert(t == (t / h) * h + t % h) by {
        lemma_fundamental_div_mod(t as int, h as int);
    }
    assert(h * h == two_128());
    assert(hi_int * two_128() + lo == a * b) by (nonlinear_arith)
        requires
            h * h == two_128(),
            a * b == p11 * (h * h) + (p01 + p10) * h + p00,
            p00 == (p00 / h) * h + p00 % h,
            p01 == (p01 / h) * h + p01 % h,
            p10 == (p10 / h) * h + p10 % h,
            t == (t / h) * h + t % h,
            t == p00 / h + p01 % h + p10 % h,
            lo == (t % h) * h + p00 % h,
            hi_int == p11 + p01 / h + p10 / h + t / h,
    ;
    assert(a * b <= u128::MAX * u128::MAX) by (nonlinear_arith)
        requires
            a <= u128::MAX,
            b <= u128::MAX,
    ;
    assert(lo >= 0);
    assert(hi_int < two_128()) by (nonlinear_arith)
        requires
            hi_int * two_128() + lo == a * b,
            a * b <= u128::MAX * u128::MAX,
            lo >= 0,
            two_128() == u128::MAX + 1,
    ;
    let hi = p11 + p01 / h + p10 / h + t / h;
    (hi, lo)
}

/// Whether `a * b == c * d`, compared on the full 256-bit products.
pub fn mul_eq(a: u128, b: u128, c: u128, d: u128) -> (r: bool)
    ensures
        r == (a * b == c * d),
{
    let (h1, l1) = full_mul(a, b);
    let (h2, l2) = full_mul(c, d);
    if h1 == h2 && l1 == l2 {
        true
    } else {
        assert(a * b != c * d) by (nonlinear_arith)
            requires
                h1 * two_128() + l1 == a * b,
                h2 * two_128() + l2 == c * d,
                0 <= l1 < two_128(),
                0 <= l2 < two_128(),
                h1 >= 0,
                h2 >= 0,
                h1 != h2 || l1 != l2,
        ;
        false
    }
}

/// Exact `floor(a * b / c)`, or `None` when that quotient does not fit in 128 bits.
pub fn mul_div(a: u128, b: u128, c: u128) -> (r: Option<u128>)
    requires
        c > 0,
    ensures
        match r {
            Some(v) => v == mul_div_spec(a as int, b as int, c as int),
            None => !fits_u128(mul_div_spec(a as int, b as int, c as int)),
        },
{
    let (hi, lo) = full_mul(a, b);
    let ghost n: int = a * b;
    if hi >= c {
        assert(n / (c as int) >= two_128()) by {
            assert(n >= (c as int) * two_128()) by (nonlinear_arith)
                requires
                    n == hi * two_128() + lo,
                    hi >= c,
                    lo >= 0,
            ;
            lemma_fundamental_div_mod(n, c as int);
            assert((n / (c as int)) * (c as int) > (c as int) * (two_128() - 1)) by (nonlinear_arith)
                requires
                    n == (c as int) * (n / (c as int)) + n % (c as int),
                    n % (c as int) < c,
                    n >= (c as int) * two_128(),
            ;
            assert(n / (c as int) >= two_128()) by (nonlinear_arith)
                requires
                    (n / (c as int)) * (c as int) > (c as int) * (two_128() - 1),
                    c > 0,
            ;
        }
        return None;
    }
    let (q, rem) = div_wide(hi, lo, c);
    proof {
        lemma_fundamental_div_mod_converse(n, c as int, q as int, rem as int);
    }
    Some(q)
}

/// Long division of the 256-bit number `hi·2^128 + lo` by `c`, when the quotient fits in
/// 128 bits (`hi < c`): returns the quotient and the remainder.
pub fn div_wide(hi: u128, lo: u128, c: u128) -> (r: (u128, u128))
    requires
        hi < c,
    ensures
        r.0 * (c as int) + r.1 == hi * two_128() + lo,
        r.1 < c,
{
    let ghost n: int = hi * two_128() + lo;
    assert(n < (c as int) * two_128()) by (nonlinear_arith)
        requires
            n == hi * two_128() + lo,
            hi < c,
            0 <= lo < two_128(),
    ;
    let mut q: u128 = 0;
    let mut rem: u128 = hi;
    let mut mask: u128 = TOP_BIT;
    let ghost mut width: int = two_128();
    assert(TOP_BIT & ((TOP_BIT - 1) as u128) == 0) by (bit_vector);
    loop
        invariant
            c > 0,
            n == hi * two_128() + lo,
            hi < c,
            rem < c,
            1 <= mask <= TOP_BIT,
            width == 2 * mask,
            mask & ((mask - 1) as u128) == 0,
            n == ((q as int) * (c as int) + rem) * width + (lo as int) % width,
            n < (c as int) * two_128(),
        decreases mask,
    {
        let bit: u128 = (lo / mask) % 2;
        proof {
            let li = lo as int;
            let mi = mask as int;
            lemma_mod_breakdown(li, mi, 2);
            assert(li % (mi * 2) == mi * ((li / mi) % 2) + li % mi);
            assert(mi * 2 == width);
            assert(bit == (li / mi) % 2);
            assert(li % width == mi * bit + li % mi);
        }
        let ghost before = (q as int) * (c as int) + rem;
        let ghost old_rem = rem as int;
        let gap = c - rem;
        let carry: bool;
        if bit == 0 {
            carry = rem >= gap;
            if carry {
                rem = rem - gap;
            } else {
                rem = rem + rem;
            }
        } else {
            carry = rem + 1 >= gap;
            if carry {
                rem = rem - (gap - 1);
            } else {
                rem = rem + rem + 1;
            }
        }
        let ghost qn: int = 2 * q + (if carry { 1int } else { 0int });
        assert(qn * (c as int) + rem == 2 * before + bit) by (nonlinear_arith)
            requires
                before == (q as int) * (c as int) + old_rem,
                qn == 2 * q + (if carry { 1int } else { 0int }),
                carry ==> rem == 2 * old_rem + bit - c,
                !carry ==> rem == 2 * old_rem + bit,
        ;
        assert(n == (qn * (c as int) + rem) * (mask as int) + (lo as int) % (mask as int)) by (nonlinear_arith)
            requires
                n == before * width + (lo as int) % width,
                width == 2 * mask,
                (lo as int) % width == (mask as int) * bit + (lo as int) % (mask as int),
                qn * (c as int) + rem == 2 * before + bit,
        ;
        assert(qn < two_128()) by (nonlinear_arith)
            requires
                n == (qn * (c as int) + rem) * (mask as int) + (lo as int) % (mask as int),
                n < (c as int) * two_128(),
                mask >= 1,
                rem >= 0,
                (lo as int) % (mask as int) >= 0,
                qn >= 0,
                c > 0,
        ;
        q = if carry { 2 * q + 1 } else { 2 * q };
        if mask == 1 {
            proof {
                assert((lo as int) % 1 == 0);
                assert((qn * (c as int) + rem) * 1 == qn * (c as int) + rem);
                assert(n == (q as int) * (c as int) + rem);
            }
            return (q, rem);
        }
        let half = mask >> 1;
        assert(half * 2 == mask && half & ((half - 1) as u128) == 0 && half >= 1) by (bit_vector)
            requires
                mask & ((mask - 1) as u128) == 0,
                mask > 1,
                half == mask >> 1,
        ;
        mask = half;
        proof {
            width = 2 * mask;
        }
    }
}

} // verus!
