//! Formats of eight and four bits, rounded to from the bits of an f32.
//!
//! An f32 is taken by its bits. Its magnitude is a whole number of the smallest
//! subnormal, `2^-149`, and so is every value of the small formats: what is
//! nearest is decided between whole numbers.

use vstd::arithmetic::power2::{lemma2_to64, lemma_pow2_adds, lemma_pow2_pos, pow2};
use vstd::prelude::*;

verus! {

/// The bit that makes an f32 negative.
pub const SIGN: u32 = 0x8000_0000;

/// The bits of infinity. A magnitude behind them is not a number.
pub const INFINITE: u32 = 0x7f80_0000;

/// The code of the largest finite e4m3 value, 448.
pub const E4M3_MAX: u8 = 0x7e;

/// The magnitude bits of an f32.
pub open spec fn magnitude(bits: u32) -> u32 {
    if bits >= SIGN {
        (bits - SIGN) as u32
    } else {
        bits
    }
}

/// Whether the bits are those of a number.
pub open spec fn is_number(bits: u32) -> bool {
    magnitude(bits) <= INFINITE
}

/// Whether the bits are those of a finite number.
pub open spec fn is_finite(bits: u32) -> bool {
    magnitude(bits) < INFINITE
}

/// A magnitude in units of `2^-149`. Infinity is taken for the number that would
/// follow the largest finite one.
pub open spec fn units(mag: u32) -> nat {
    let e = mag / 0x80_0000;
    let m = mag % 0x80_0000;
    if e == 0 {
        m as nat
    } else {
        (0x80_0000 + m as nat) * pow2((e - 1) as nat)
    }
}

/// The value of an e4m3 code in units of `2^-9`: three bits behind the point, and
/// an exponent above them; below the smallest exponent the values go on in equal
/// steps.
pub open spec fn e4m3_steps(c: int) -> nat {
    if c < 8 {
        c as nat
    } else {
        (8 + c % 8) as nat * pow2((c / 8 - 1) as nat)
    }
}

/// The value of an e4m3 code in units of `2^-149`.
pub open spec fn e4m3_value(c: int) -> nat {
    e4m3_steps(c) * pow2(140)
}

/// The value of an e2m1 code without its sign, in halves.
pub open spec fn e2m1_halves(c: int) -> nat {
    if c < 4 {
        c as nat
    } else if c < 6 {
        (2 * c - 4) as nat
    } else {
        (4 * c - 16) as nat
    }
}

/// The value of an e2m1 code without its sign, in units of `2^-149`.
pub open spec fn e2m1_value(c: int) -> nat {
    e2m1_halves(c) * pow2(148)
}

/// How far two values are apart.
pub open spec fn apart(a: nat, b: nat) -> nat {
    if a <= b {
        (b - a) as nat
    } else {
        (a - b) as nat
    }
}

/// Whether `r` is the e4m3 code nearest to a magnitude, the even one of two that
/// are equally near.
pub open spec fn nearest_even_e4m3(mag: u32, r: int) -> bool {
    &&& 0 <= r <= E4M3_MAX
    &&& forall|c: int|
        0 <= c <= E4M3_MAX && c != r ==> {
            ||| apart(units(mag), e4m3_value(r)) < apart(units(mag), #[trigger] e4m3_value(c))
            ||| apart(units(mag), e4m3_value(r)) == apart(units(mag), e4m3_value(c)) && r % 2 == 0
        }
}

/// Whether `r` is the e4m3 code nearest to a magnitude, the smaller of two that
/// are equally near.
pub open spec fn nearest_low_e4m3(mag: u32, r: int) -> bool {
    &&& 0 <= r <= E4M3_MAX
    &&& forall|c: int|
        0 <= c <= E4M3_MAX && c != r ==> {
            ||| apart(units(mag), e4m3_value(r)) < apart(units(mag), #[trigger] e4m3_value(c))
            ||| apart(units(mag), e4m3_value(r)) == apart(units(mag), e4m3_value(c)) && r < c
        }
}

/// Whether `r` is the e2m1 code nearest to a magnitude, the smaller of two that
/// are equally near.
pub open spec fn nearest_low_e2m1(mag: u32, r: int) -> bool {
    &&& 0 <= r < 8
    &&& forall|c: int|
        0 <= c < 8 && c != r ==> {
            ||| apart(units(mag), e2m1_value(r)) < apart(units(mag), #[trigger] e2m1_value(c))
            ||| apart(units(mag), e2m1_value(r)) == apart(units(mag), e2m1_value(c)) && r < c
        }
}

proof fn e4m3_grows_by_one(c: int)
    requires
        0 <= c < E4M3_MAX,
    ensures
        e4m3_value(c) < e4m3_value(c + 1),
{
    lemma_pow2_pos(140);
    if c < 7 {
        assert(e4m3_steps(c) < e4m3_steps(c + 1));
    } else {
        let e = (c + 1) / 8;
        let m = (c + 1) % 8;
        lemma_pow2_pos((e - 1) as nat);
        if m == 0 {
            if c == 7 {
                lemma2_to64();
                assert(e4m3_steps(8) == 8 * pow2(0));
            } else {
                lemma_pow2_pos((e - 2) as nat);
                lemma_pow2_adds(1, (e - 2) as nat);
                lemma2_to64();
                assert(c / 8 == e - 1 && c % 8 == 7);
                let p = pow2((e - 2) as nat);
                assert(pow2((e - 1) as nat) == 2 * p);
                assert(e4m3_steps(c) == 15 * p);
                assert(e4m3_steps(c + 1) == 8 * (2 * p));
            }
        } else {
            assert(c / 8 == e && c % 8 == m - 1);
            let p = pow2((e - 1) as nat);
            assert(e4m3_steps(c) == (7 + m) * p);
            assert(e4m3_steps(c + 1) == (8 + m) * p);
            assert((7 + m) * p < (8 + m) * p) by (nonlinear_arith)
                requires
                    p > 0,
            ;
        }
        assert(e4m3_steps(c) < e4m3_steps(c + 1));
    }
    let (a, b, p) = (e4m3_steps(c), e4m3_steps(c + 1), pow2(140));
    assert(a * p < b * p) by (nonlinear_arith)
        requires
            a < b,
            p > 0,
    ;
}

proof fn e4m3_grows(a: int, b: int)
    requires
        0 <= a < b <= E4M3_MAX,
    ensures
        e4m3_value(a) < e4m3_value(b),
    decreases b - a,
{
    e4m3_grows_by_one(b - 1);
    if a < b - 1 {
        e4m3_grows(a, b - 1);
    }
}


/// The nearest code is one of the two that a magnitude lies between.
proof fn nearest_is_a_neighbour(mag: u32, q: int, r: int, d: nat, rem: nat, p: nat, even: bool)
    requires
        0 <= q < E4M3_MAX,
        p > 0,
        rem < d,
        units(mag) == e4m3_value(q) + rem * p,
        e4m3_value(q + 1) == e4m3_value(q) + d * p,
        r == if 2 * rem > d || (2 * rem == d && even && q % 2 == 1) {
            q + 1
        } else {
            q
        },
    ensures
        even ==> nearest_even_e4m3(mag, r),
        !even ==> nearest_low_e4m3(mag, r),
{
    let lo = rem * p;
    let hi = (d - rem) * p;
    assert(lo + hi == d * p) by (nonlinear_arith)
        requires
            lo == rem * p,
            hi == (d - rem) * p,
    ;
    assert(2 * rem < d ==> lo < hi) by (nonlinear_arith)
        requires
            lo == rem * p,
            hi == (d - rem) * p,
            p > 0,
    ;
    assert(2 * rem > d ==> lo > hi) by (nonlinear_arith)
        requires
            lo == rem * p,
            hi == (d - rem) * p,
            p > 0,
    ;
    assert(2 * rem == d ==> lo == hi) by (nonlinear_arith)
        requires
            lo == rem * p,
            hi == (d - rem) * p,
    ;
    assert(lo >= 0 && hi > 0) by (nonlinear_arith)
        requires
            lo == rem * p,
            hi == (d - rem) * p,
            p > 0,
            rem < d,
    ;
    assert forall|c: int| 0 <= c <= E4M3_MAX && c != q && c != q + 1 implies (if c < q {
        #[trigger] e4m3_value(c) < e4m3_value(q)
    } else {
        e4m3_value(c) > e4m3_value(q + 1)
    }) by {
        if c < q {
            e4m3_grows(c, q);
        } else {
            e4m3_grows(q + 1, c);
        }
    }
}

/// From the smallest exponent on, a magnitude lies between the codes that its
/// leading bits spell.
proof fn leading_bits_are_a_code(mag: u32)
    requires
        0x3c80_0000 <= mag < 0x43f0_0000,
    ensures
        ({
            let q = mag / 0x10_0000 - 960;
            let p = pow2((mag / 0x80_0000 - 1) as nat);
            &&& 8 <= q <= E4M3_MAX
            &&& p > 0
            &&& units(mag) == e4m3_value(q) + (mag % 0x10_0000) as nat * p
            &&& e4m3_value(q + 1) == e4m3_value(q) + 0x10_0000 * p
        }),
{
    let e = (mag / 0x80_0000) as int;
    let m = (mag % 0x80_0000) as int;
    let q = mag / 0x10_0000 - 960;
    let rem = (mag % 0x10_0000) as int;
    let top = m / 0x10_0000;
    let p = pow2((e - 1) as nat);
    assert(q == 8 * (e - 120) + top && m == top * 0x10_0000 + rem && 0 <= top < 8);
    assert(q / 8 == e - 120 && q % 8 == top);
    lemma_pow2_pos((e - 1) as nat);
    lemma2_to64();
    lemma_pow2_adds(20, (e - 1) as nat);
    lemma_pow2_adds((e - 121) as nat, 140);
    let g = pow2((e - 121) as nat);
    let w = pow2(140);
    assert(g * w == 0x10_0000 * p);
    assert(e4m3_value(q) == (8 + top) * (0x10_0000 * p)) by {
        assert(e4m3_steps(q) == (8 + top) * g);
        assert(((8 + top) * g) * w == (8 + top) * (g * w)) by (nonlinear_arith);
    }
    assert(units(mag) == (8 + top) * (0x10_0000 * p) + rem * p) by {
        assert(units(mag) == (0x80_0000 + m) * p);
        assert((0x80_0000 + m) * p == (8 + top) * (0x10_0000 * p) + rem * p) by (nonlinear_arith)
            requires
                m == top * 0x10_0000 + rem,
        ;
    }
    assert(e4m3_value(q + 1) == (9 + top) * (0x10_0000 * p)) by {
        if top == 7 {
            assert((q + 1) / 8 == e - 119 && (q + 1) % 8 == 0);
            lemma_pow2_adds(1, (e - 121) as nat);
            assert(e4m3_steps(q + 1) == 8 * (2 * g));
            assert((8 * (2 * g)) * w == 16 * (g * w)) by (nonlinear_arith);
        } else {
            assert((q + 1) / 8 == e - 120 && (q + 1) % 8 == top + 1);
            assert(e4m3_steps(q + 1) == (9 + top) * g);
            assert(((9 + top) * g) * w == (9 + top) * (g * w)) by (nonlinear_arith);
        }
    }
    assert((9 + top) * (0x10_0000 * p) == (8 + top) * (0x10_0000 * p) + 0x10_0000 * p)
        by (nonlinear_arith);
}

/// Below the smallest exponent, a magnitude lies between two of the equal steps.
proof fn small_magnitudes_lie_between_steps(mag: u32, d: nat)
    requires
        0x3a80_0000 <= mag < 0x3c80_0000,
        d == pow2((141 - mag / 0x80_0000) as nat),
    ensures
        ({
            let sig = 0x80_0000 + mag % 0x80_0000;
            let q = sig / d as int;
            let p = pow2((mag / 0x80_0000 - 1) as nat);
            &&& 0 <= q < 8
            &&& p > 0
            &&& units(mag) == e4m3_value(q) + (sig % d as int) as nat * p
            &&& e4m3_value(q + 1) == e4m3_value(q) + d * p
        }),
{
    let e = (mag / 0x80_0000) as int;
    assert(117 <= e <= 120);
    let sig = (0x80_0000 + mag % 0x80_0000) as int;
    let p = pow2((e - 1) as nat);
    let w = pow2(140);
    lemma_pow2_pos((e - 1) as nat);
    lemma2_to64();
    lemma_pow2_adds((141 - e) as nat, (e - 1) as nat);
    assert(d * p == w);
    assert(0x20_0000 <= d);
    let q = sig / d as int;
    let rem = sig % d as int;
    vstd::arithmetic::div_mod::lemma_fundamental_div_mod(sig, d as int);
    assert(0 <= q < 8) by (nonlinear_arith)
        requires
            sig == d * q + rem,
            0 <= rem < d,
            0 <= sig < 0x100_0000,
            d >= 0x20_0000,
    ;
    assert(units(mag) == sig * p);
    assert(sig * p == q * (d * p) + rem * p) by (nonlinear_arith)
        requires
            sig == d * q + rem,
    ;
    assert(e4m3_steps(q) == q);
    assert(e4m3_steps(q + 1) == q + 1) by {
        if q == 7 {
            assert(e4m3_steps(8) == 8 * pow2(0));
        }
    }
    assert((q + 1) * w == q * w + w) by (nonlinear_arith);
}

/// Magnitudes are in the order of their bits.
proof fn units_grow(a: u32, b: u32)
    requires
        a < b,
    ensures
        units(a) < units(b),
{
    let (ea, ma) = ((a / 0x80_0000) as int, (a % 0x80_0000) as int);
    let (eb, mb) = ((b / 0x80_0000) as int, (b % 0x80_0000) as int);
    lemma2_to64();
    if ea == eb {
        if ea > 0 {
            let p = pow2((ea - 1) as nat);
            lemma_pow2_pos((ea - 1) as nat);
            assert((0x80_0000 + ma) * p < (0x80_0000 + mb) * p) by (nonlinear_arith)
                requires
                    ma < mb,
                    p > 0,
            ;
        }
    } else {
        let pb = pow2((eb - 1) as nat);
        lemma_pow2_pos((eb - 1) as nat);
        assert(0x80_0000 * pb <= (0x80_0000 + mb) * pb) by (nonlinear_arith)
            requires
                mb >= 0,
                pb > 0,
        ;
        if ea == 0 {
            assert(0x80_0000 <= 0x80_0000 * pb);
        } else {
            let pa = pow2((ea - 1) as nat);
            lemma_pow2_pos((ea - 1) as nat);
            lemma_pow2_adds((eb - ea) as nat, (ea - 1) as nat);
            lemma_pow2_adds(1, (eb - ea - 1) as nat);
            lemma_pow2_pos((eb - ea - 1) as nat);
            let k = pow2((eb - ea) as nat);
            assert(k >= 2);
            assert((0x80_0000 + ma) * pa < 0x100_0000 * pa) by (nonlinear_arith)
                requires
                    ma < 0x80_0000,
                    pa > 0,
            ;
            assert(0x100_0000 * pa <= 0x80_0000 * (k * pa)) by (nonlinear_arith)
                requires
                    k >= 2,
                    pa > 0,
            ;
        }
    }
}

fn magnitude_of(bits: u32) -> (m: u32)
    ensures
        m == magnitude(bits),
        m < SIGN,
{
    if bits >= SIGN {
        bits - SIGN
    } else {
        bits
    }
}

/// The e4m3 code nearest to a magnitude; of two that are equally near the even
/// one, or else the smaller.
fn near_e4m3(mag: u32, even: bool) -> (r: u8)
    requires
        mag <= INFINITE,
    ensures
        even ==> nearest_even_e4m3(mag, r as int),
        !even ==> nearest_low_e4m3(mag, r as int),
{
    if mag >= 0x43e0_0000 {
        proof {
            leading_bits_are_a_code(0x43e0_0000);
            if mag > 0x43e0_0000 {
                units_grow(0x43e0_0000, mag);
            }
            let p = pow2((0x43e0_0000u32 / 0x80_0000 - 1) as nat);
            assert(0 * p == 0);
            assert(units(0x43e0_0000) == e4m3_value(126));
            assert forall|c: int| 0 <= c <= E4M3_MAX && c != 126 implies #[trigger] e4m3_value(c)
                < e4m3_value(126) by {
                e4m3_grows(c, 126);
            }
        }
        return E4M3_MAX;
    }
    if mag >= 0x3c80_0000 {
        let q: u32 = mag / 0x10_0000 - 960;
        let rem: u32 = mag % 0x10_0000;
        let up: bool = rem > 0x8_0000 || (rem == 0x8_0000 && even && q % 2 == 1);
        let r: u32 = if up { q + 1 } else { q };
        proof {
            leading_bits_are_a_code(mag);
            nearest_is_a_neighbour(
                mag,
                q as int,
                r as int,
                0x10_0000,
                rem as nat,
                pow2((mag / 0x80_0000 - 1) as nat),
                even,
            );
        }
        return r as u8;
    }
    if mag < 0x3a80_0000 {
        proof {
            units_grow(mag, 0x3a80_0000);
            lemma2_to64();
            lemma_pow2_adds(23, 116);
            lemma_pow2_adds(1, 139);
            assert(units(0x3a80_0000) == 0x80_0000 * pow2(116)) by {
                assert((0x80_0000 + 0) * pow2(116) == 0x80_0000 * pow2(116));
            }
            assert(e4m3_value(0) == 0) by {
                assert(0 * pow2(140) == 0);
            }
            assert(e4m3_value(1) == pow2(140)) by {
                assert(1 * pow2(140) == pow2(140));
            }
            nearest_is_a_neighbour(mag, 0, 0, pow2(140), units(mag), 1, even);
        }
        return 0;
    }
    let e: u32 = mag / 0x80_0000;
    let sig: u32 = 0x80_0000 + mag % 0x80_0000;
    let d: u32 = if e == 117 {
        0x100_0000
    } else if e == 118 {
        0x80_0000
    } else if e == 119 {
        0x40_0000
    } else {
        0x20_0000
    };
    let q: u32 = sig / d;
    let rem: u32 = sig % d;
    let half: u32 = d / 2;
    let up: bool = rem > half || (rem == half && even && q % 2 == 1);
    proof {
        lemma2_to64();
        small_magnitudes_lie_between_steps(mag, d as nat);
        nearest_is_a_neighbour(
            mag,
            q as int,
            if up {
                q + 1
            } else {
                q as int
            },
            d as nat,
            rem as nat,
            pow2((mag / 0x80_0000 - 1) as nat),
            even,
        );
    }
    let r: u32 = if up { q + 1 } else { q };
    r as u8
}

/// Rounds an f32 to e4m3: a sign bit and the nearest magnitude, the even one of
/// two that are equally near. What is too large becomes the largest finite value,
/// and what is not a number becomes zero.
pub fn float_to_e4m3(bits: u32) -> (code: u8)
    ensures
        code / 0x80 == if bits >= SIGN { 1int } else { 0 },
        is_number(bits) ==> nearest_even_e4m3(magnitude(bits), code as int % 0x80),
        !is_number(bits) ==> code % 0x80 == 0,
{
    let sign: u8 = if bits >= SIGN { 0x80 } else { 0 };
    let mag: u32 = magnitude_of(bits);
    if mag > INFINITE {
        return sign;
    }
    sign + near_e4m3(mag, true)
}

/// The bits of the f32 that an e4m3 code without its sign stands for.
pub fn e4m3_to_float(code: u8) -> (bits: u32)
    requires
        code <= E4M3_MAX,
    ensures
        bits < INFINITE,
        units(bits) == e4m3_value(code as int),
{
    if code >= 8 {
        let bits: u32 = (code as u32 + 960) * 0x10_0000;
        proof {
            leading_bits_are_a_code(bits);
            let p = pow2((bits / 0x80_0000 - 1) as nat);
            assert(bits / 0x10_0000 - 960 == code && bits % 0x10_0000 == 0);
            assert(0 * p == 0);
        }
        return bits;
    }
    if code == 0 {
        assert(0 * pow2(140) == 0);
        return 0;
    }
    let bits: u32 = if code == 1 {
        0x3b00_0000
    } else if code < 4 {
        0x3b80_0000 + (code as u32 - 2) * 0x40_0000
    } else {
        0x3c00_0000 + (code as u32 - 4) * 0x20_0000
    };
    proof {
        lemma2_to64();
        let d: nat = if code == 1 {
            0x80_0000
        } else if code < 4 {
            0x40_0000
        } else {
            0x20_0000
        };
        small_magnitudes_lie_between_steps(bits, d);
        let sig = 0x80_0000 + bits % 0x80_0000;
        assert(sig == code * d);
        assert(sig / d as int == code && sig % d as int == 0);
        assert(0 * pow2((bits / 0x80_0000 - 1) as nat) == 0);
    }
    bits
}

/// Rounds a scale to the nearest value that an e4m3 code without a sign can hold,
/// the smaller of two that are equally near. What is not positive becomes zero, and
/// so does infinity, to which no value is nearest.
pub fn ue4m3_round(bits: u32) -> (r: u32)
    ensures
        0 < bits < INFINITE ==> exists|c: int| #[trigger]
            nearest_low_e4m3(bits, c) && units(r) == e4m3_value(c),
        !(0 < bits < INFINITE) ==> r == 0,
        r < INFINITE,
{
    if bits == 0 || bits >= INFINITE {
        return 0;
    }
    let c: u8 = near_e4m3(bits, false);
    assert(nearest_low_e4m3(bits, c as int));
    e4m3_to_float(c)
}

/// A value that e4m3 can hold is kept.
pub proof fn e4m3_keeps_its_own_values(mag: u32, c: int, r: int)
    requires
        0 <= c <= E4M3_MAX,
        units(mag) == e4m3_value(c),
        nearest_even_e4m3(mag, r) || nearest_low_e4m3(mag, r),
    ensures
        r == c,
{
    if r < c {
        e4m3_grows(r, c);
    } else if c < r {
        e4m3_grows(c, r);
    }
}

/// Rounding to e4m3 keeps the order of magnitudes.
pub proof fn e4m3_keeps_the_order(a: u32, b: u32, ra: int, rb: int)
    requires
        a <= b,
        nearest_even_e4m3(a, ra),
        nearest_even_e4m3(b, rb),
    ensures
        ra <= rb,
{
    if a < b {
        units_grow(a, b);
    }
    if rb < ra {
        e4m3_grows(rb, ra);
        if rb + 1 < ra {
            e4m3_grows(rb, rb + 1);
            e4m3_grows(rb + 1, ra);
        }
    }
}

proof fn e2m1_levels(h: nat)
    requires
        h == pow2(147),
    ensures
        h > 0,
        e2m1_value(0) == 0,
        e2m1_value(1) == 2 * h,
        e2m1_value(2) == 4 * h,
        e2m1_value(3) == 6 * h,
        e2m1_value(4) == 8 * h,
        e2m1_value(5) == 12 * h,
        e2m1_value(6) == 16 * h,
        e2m1_value(7) == 24 * h,
        units(0x3e80_0000) == h,
        units(0x3f40_0000) == 3 * h,
        units(0x3fa0_0000) == 5 * h,
        units(0x3fe0_0000) == 7 * h,
        units(0x4020_0000) == 10 * h,
        units(0x4060_0000) == 14 * h,
        units(0x40a0_0000) == 20 * h,
{
    lemma2_to64();
    lemma_pow2_pos(147);
    lemma_pow2_adds(1, 147);
    lemma_pow2_adds(23, 124);
    lemma_pow2_adds(22, 125);
    lemma_pow2_adds(21, 126);
    lemma_pow2_adds(21, 127);
    lemma_pow2_adds(1, 127);
    lemma_pow2_adds(1, 126);
    let w = pow2(148);
    assert(e2m1_value(0) == 0 * w && e2m1_value(1) == 1 * w && e2m1_value(2) == 2 * w);
    assert(e2m1_value(3) == 3 * w && e2m1_value(4) == 4 * w && e2m1_value(5) == 6 * w);
    assert(e2m1_value(6) == 8 * w && e2m1_value(7) == 12 * w);
    assert(units(0x3e80_0000) == 0x80_0000 * pow2(124));
    assert(units(0x3f40_0000) == 0xc0_0000 * pow2(125));
    assert(units(0x3fa0_0000) == 0xa0_0000 * pow2(126));
    assert(units(0x3fe0_0000) == 0xe0_0000 * pow2(126));
    assert(units(0x4020_0000) == 0xa0_0000 * pow2(127));
    assert(units(0x4060_0000) == 0xe0_0000 * pow2(127));
    assert(units(0x40a0_0000) == 0xa0_0000 * pow2(128));
}

/// Magnitudes are ordered as their bits are.
pub proof fn units_keep_the_order(a: u32, b: u32)
    ensures
        a <= b <==> units(a) <= units(b),
{
    if a < b {
        units_grow(a, b);
    } else if b < a {
        units_grow(b, a);
    }
}

/// The e2m1 code nearest to a magnitude, the smaller of two that are equally near.
fn near_e2m1(mag: u32) -> (r: u8)
    ensures
        nearest_low_e2m1(mag, r as int),
{
    let r: u8 = if mag <= 0x3e80_0000 {
        0
    } else if mag <= 0x3f40_0000 {
        1
    } else if mag <= 0x3fa0_0000 {
        2
    } else if mag <= 0x3fe0_0000 {
        3
    } else if mag <= 0x4020_0000 {
        4
    } else if mag <= 0x4060_0000 {
        5
    } else if mag <= 0x40a0_0000 {
        6
    } else {
        7
    };
    proof {
        e2m1_levels(pow2(147));
        units_keep_the_order(mag, 0x3e80_0000);
        units_keep_the_order(mag, 0x3f40_0000);
        units_keep_the_order(mag, 0x3fa0_0000);
        units_keep_the_order(mag, 0x3fe0_0000);
        units_keep_the_order(mag, 0x4020_0000);
        units_keep_the_order(mag, 0x4060_0000);
        units_keep_the_order(mag, 0x40a0_0000);
        assert forall|c: int| 0 <= c < 8 && c != r implies {
            ||| apart(units(mag), e2m1_value(r as int)) < apart(
                units(mag),
                #[trigger] e2m1_value(c),
            )
            ||| apart(units(mag), e2m1_value(r as int)) == apart(units(mag), e2m1_value(c)) && r
                < c
        } by {
            assert(c == 0 || c == 1 || c == 2 || c == 3 || c == 4 || c == 5 || c == 6 || c == 7);
        }
    }
    r
}

/// Rounds an f32 to e2m1: a sign bit and the nearest magnitude, the smaller of two
/// that are equally near. What is too large becomes the largest value. What is not a
/// number becomes zero, and so does infinity, to which no value is nearest.
pub fn e2m1_code(bits: u32) -> (code: u8)
    ensures
        code / 8 == if bits >= SIGN { 1int } else { 0 },
        is_finite(bits) ==> nearest_low_e2m1(magnitude(bits), code as int % 8),
        !is_finite(bits) ==> code % 8 == 0,
{
    let sign: u8 = if bits >= SIGN { 8 } else { 0 };
    let mag: u32 = magnitude_of(bits);
    if mag >= INFINITE {
        return sign;
    }
    sign + near_e2m1(mag)
}

/// Rounds an f32 to the nearest value that an e2m1 code can hold. What is not a
/// number becomes zero, and so does infinity.
pub fn e2m1_round(bits: u32) -> (r: u32)
    ensures
        r >= SIGN <==> bits >= SIGN,
        is_finite(bits) ==> exists|c: int| #[trigger]
            nearest_low_e2m1(magnitude(bits), c) && units(magnitude(r)) == e2m1_value(c),
        !is_finite(bits) ==> magnitude(r) == 0,
{
    let sign: u32 = if bits >= SIGN { SIGN } else { 0 };
    let mag: u32 = magnitude_of(bits);
    if mag >= INFINITE {
        return sign;
    }
    let c: u8 = near_e2m1(mag);
    let level: u32 = if c == 0 {
        0
    } else if c == 1 {
        0x3f00_0000
    } else {
        0x3f80_0000 + (c as u32 - 2) * 0x40_0000
    };
    proof {
        assert(nearest_low_e2m1(mag, c as int));
        e2m1_levels(pow2(147));
        lemma2_to64();
        lemma_pow2_adds(23, 125);
        lemma_pow2_adds(22, 126);
        lemma_pow2_adds(22, 127);
        lemma_pow2_adds(22, 128);
        lemma_pow2_adds(1, 147);
        lemma_pow2_adds(1, 148);
        lemma_pow2_adds(1, 149);
        assert(units(0x3f00_0000) == 0x80_0000 * pow2(125));
        assert(units(0x3f80_0000) == 0x80_0000 * pow2(126));
        assert(units(0x3fc0_0000) == 0xc0_0000 * pow2(126));
        assert(units(0x4000_0000) == 0x80_0000 * pow2(127));
        assert(units(0x4040_0000) == 0xc0_0000 * pow2(127));
        assert(units(0x4080_0000) == 0x80_0000 * pow2(128));
        assert(units(0x40c0_0000) == 0xc0_0000 * pow2(128));
        assert(c == 0 || c == 1 || c == 2 || c == 3 || c == 4 || c == 5 || c == 6 || c == 7);
        assert(units(level) == e2m1_value(c as int));
        assert(magnitude((sign + level) as u32) == level);
    }
    sign + level
}

/// A value that e2m1 can hold is kept.
pub proof fn e2m1_keeps_its_own_values(mag: u32, c: int, r: int)
    requires
        0 <= c < 8,
        units(mag) == e2m1_value(c),
        nearest_low_e2m1(mag, r),
    ensures
        r == c,
{
    e2m1_levels(pow2(147));
    assert(c == 0 || c == 1 || c == 2 || c == 3 || c == 4 || c == 5 || c == 6 || c == 7);
    assert(r == 0 || r == 1 || r == 2 || r == 3 || r == 4 || r == 5 || r == 6 || r == 7);
}

/// Whether `m` is the largest magnitude among the numbers of `w`, or zero where
/// there is none.
pub open spec fn is_peak(w: Seq<u32>, m: u32) -> bool {
    &&& forall|i: int| 0 <= i < w.len() && is_number(#[trigger] w[i]) ==> magnitude(w[i]) <= m
    &&& m == 0 || exists|i: int|
        0 <= i < w.len() && is_number(#[trigger] w[i]) && magnitude(w[i]) == m
}

/// The largest magnitude among the values from `from` up to `to`; what is not a
/// number does not count.
pub fn peak(w: &Vec<u32>, from: usize, to: usize) -> (m: u32)
    requires
        from <= to <= w@.len(),
    ensures
        is_peak(w@.subrange(from as int, to as int), m),
        m <= INFINITE,
{
    let mut m: u32 = 0;
    for i in from..to
        invariant
            from <= to <= w@.len(),
            m <= INFINITE,
            is_peak(w@.subrange(from as int, i as int), m),
    {
        let ghost before = w@.subrange(from as int, i as int);
        let ghost after = w@.subrange(from as int, i + 1);
        let ghost was = m;
        let a: u32 = magnitude_of(w[i]);
        if a <= INFINITE && a > m {
            m = a;
        }
        proof {
            assert(after[i - from] == w@[i as int]);
            assert forall|k: int| 0 <= k < after.len() && is_number(#[trigger] after[k]) implies
                magnitude(after[k]) <= m by {
                if k < i - from {
                    assert(before[k] == after[k]);
                }
            }
            if m == was && m != 0 {
                let k = choose|k: int|
                    0 <= k < before.len() && is_number(#[trigger] before[k]) && magnitude(before[k])
                        == was;
                assert(after[k] == before[k]);
            }
        }
    }
    m
}

/// The largest value that four bits under the power-of-two scale of code `c` can
/// hold, six times `2^(c - 127)`, in units of `2^-149`.
pub open spec fn e8m0_reach(c: int) -> nat {
    6 * pow2((c + 22) as nat)
}

/// Whether `r` is the code of the smallest power-of-two scale under which four bits
/// reach a magnitude. Zero takes the scale one, and nothing reaches infinity.
pub open spec fn smallest_e8m0(mag: u32, r: int) -> bool {
    &&& 0 <= r <= 254
    &&& mag == 0 ==> r == 127
    &&& mag == INFINITE ==> r == 254
    &&& 0 < mag < INFINITE ==> units(mag) <= e8m0_reach(r)
    &&& 0 < mag < INFINITE ==> forall|c: int|
        0 <= c < r ==> #[trigger] e8m0_reach(c) < units(mag)
}

proof fn reach_grows(a: int, b: int)
    requires
        0 <= a <= b,
    ensures
        e8m0_reach(a) <= e8m0_reach(b),
{
    lemma_pow2_adds((a + 22) as nat, (b - a) as nat);
    lemma_pow2_pos((b - a) as nat);
    let p = pow2((a + 22) as nat);
    let q = pow2((b - a) as nat);
    assert(p <= p * q) by (nonlinear_arith)
        requires
            q >= 1,
            p >= 0,
    ;
}

/// The code of the smallest power-of-two scale for a block whose largest magnitude
/// is `mag`: rounding the scale up, never down, keeps that weight from being cut
/// off.
pub fn e8m0_scale(mag: u32) -> (code: u8)
    requires
        mag <= INFINITE,
    ensures
        smallest_e8m0(mag, code as int),
{
    if mag == 0 {
        return 127;
    }
    if mag == INFINITE {
        return 254;
    }
    let e: u32 = mag / 0x80_0000;
    let m: u32 = mag % 0x80_0000;
    let down: u32 = if m <= 0x40_0000 {
        2
    } else {
        1
    };
    let c: u32 = if e >= down {
        e - down
    } else {
        0
    };
    proof {
        assert(e <= 254);
        lemma2_to64();
        lemma_pow2_adds(22, c as nat);
        let pc = pow2(c as nat);
        assert(e8m0_reach(c as int) == 0x180_0000 * pc) by {
            assert(pow2((c + 22) as nat) == 0x40_0000 * pc);
        }
        if e >= 1 {
            let pe = pow2((e - 1) as nat);
            lemma_pow2_pos((e - 1) as nat);
            if e >= down {
                lemma_pow2_adds(c as nat, (down - 1) as nat);
                assert(pe == pc * pow2((down - 1) as nat));
                if down == 2 {
                    assert(pow2((down - 1) as nat) == 2);
                    assert((0x80_0000 + m) * (2 * pc) <= 0x180_0000 * pc) by (nonlinear_arith)
                        requires
                            m <= 0x40_0000,
                            pc >= 0,
                    ;
                } else {
                    assert(pow2((down - 1) as nat) == 1);
                    assert((0x80_0000 + m) * pc <= 0x180_0000 * pc) by (nonlinear_arith)
                        requires
                            m < 0x80_0000,
                            pc >= 0,
                    ;
                }
            } else {
                assert(c == 0 && e == 1 && m <= 0x40_0000);
                assert((0x80_0000 + m) * 1 <= 0x180_0000);
            }
        }
        assert forall|k: int| 0 <= k < c implies #[trigger] e8m0_reach(k) < units(mag) by {
            reach_grows(k, c - 1);
            let pl = pow2((c - 1) as nat);
            lemma_pow2_pos((c - 1) as nat);
            lemma_pow2_adds(22, (c - 1) as nat);
            lemma_pow2_adds((c - 1) as nat, down as nat);
            assert(e8m0_reach(c - 1) == 0x180_0000 * pl) by {
                assert(pow2((c - 1 + 22) as nat) == 0x40_0000 * pl);
            }
            let pe = pow2((e - 1) as nat);
            if down == 2 {
                assert(pe == pl * 4);
                assert(0x180_0000 * pl < (0x80_0000 + m) * (pl * 4)) by (nonlinear_arith)
                    requires
                        m >= 0,
                        pl >= 1,
                ;
            } else {
                assert(pe == pl * 2);
                assert(0x180_0000 * pl < (0x80_0000 + m) * (pl * 2)) by (nonlinear_arith)
                    requires
                        m > 0x40_0000,
                        pl >= 1,
                ;
            }
        }
    }
    c as u8
}

/// The bits of an f32 in order stand for magnitudes in order: at first one step of
/// the smallest subnormal after another, then twice as large for every exponent.
pub proof fn magnitudes_double_with_the_exponent(mag: u32)
    requires
        mag <= 0x7f80_0000,
    ensures
        mag <= 0x100_0000 ==> units(mag) == mag,
        0x80_0000 <= mag < 0x7f80_0000 ==> units((mag + 0x80_0000) as u32) == 2 * units(mag),
        units(0x3f80_0000) == pow2(149),
{
    lemma2_to64();
    lemma_pow2_adds(23, 126);
    assert(units(0x3f80_0000) == 0x80_0000 * pow2(126));
    if 0x80_0000 <= mag < 0x100_0000 {
        assert(mag / 0x80_0000 == 1 && mag % 0x80_0000 == mag - 0x80_0000);
        assert(units(mag) == mag as nat * pow2(0));
        assert(mag as nat * 1 == mag);
    }
    if mag == 0x100_0000 {
        assert(units(mag) == 0x80_0000 * pow2(1));
    }
    if 0x80_0000 <= mag < 0x7f80_0000 {
        let e = mag / 0x80_0000;
        let m = mag % 0x80_0000;
        let next = (mag + 0x80_0000) as u32;
        assert(next / 0x80_0000 == e + 1 && next % 0x80_0000 == m);
        lemma_pow2_adds(1, (e - 1) as nat);
        let p = pow2((e - 1) as nat);
        assert((0x80_0000 + m as nat) * (2 * p) == 2 * ((0x80_0000 + m as nat) * p))
            by (nonlinear_arith);
    }
}

/// The values of e4m3 begin with equal steps of `2^-9` and then double every eight
/// codes; 0x38 is one. Those of e2m1 are 0, 0.5, 1, 1.5, 2, 3, 4 and 6.
pub proof fn small_formats_hold_their_values(c: int)
    requires
        0 <= c <= 0x7e,
    ensures
        c < 16 ==> e4m3_value(c) == c * pow2(140),
        8 <= c <= 0x76 ==> e4m3_value(c + 8) == 2 * e4m3_value(c),
        e4m3_value(0x38) == units(0x3f80_0000),
        e4m3_value(0x7e) == 448 * units(0x3f80_0000),
        e2m1_value(0) == 0,
        2 * e2m1_value(1) == 1 * units(0x3f80_0000),
        2 * e2m1_value(2) == 2 * units(0x3f80_0000),
        2 * e2m1_value(3) == 3 * units(0x3f80_0000),
        2 * e2m1_value(4) == 4 * units(0x3f80_0000),
        2 * e2m1_value(5) == 6 * units(0x3f80_0000),
        2 * e2m1_value(6) == 8 * units(0x3f80_0000),
        2 * e2m1_value(7) == 12 * units(0x3f80_0000),
{
    lemma2_to64();
    magnitudes_double_with_the_exponent(0);
    lemma_pow2_adds(9, 140);
    lemma_pow2_adds(1, 148);
    assert(0 * pow2(148) == 0);
    assert(e2m1_halves(1) == 1 && e2m1_halves(2) == 2 && e2m1_halves(3) == 3 && e2m1_halves(4) == 4);
    assert(e2m1_halves(5) == 6 && e2m1_halves(6) == 8 && e2m1_halves(7) == 12);
    assert(e2m1_value(1) == 1 * pow2(148) && e2m1_value(3) == 3 * pow2(148));
    assert(e2m1_value(5) == 6 * pow2(148) && e2m1_value(6) == 8 * pow2(148));
    if 8 <= c < 16 {
        assert(c / 8 - 1 == 0 && 8 + c % 8 == c);
        assert(e4m3_steps(c) == c as nat * pow2(0));
        assert(c as nat * 1 == c);
    }
    if 8 <= c <= 0x76 {
        let k = (c / 8 - 1) as nat;
        let p = pow2(k);
        let m = (8 + c % 8) as nat;
        assert((c + 8) / 8 - 1 == k + 1 && (c + 8) % 8 == c % 8);
        lemma_pow2_adds(1, k);
        assert(m * (2 * p) == 2 * (m * p)) by (nonlinear_arith);
        let s = m * p;
        let q = pow2(140);
        assert((2 * s) * q == 2 * (s * q)) by (nonlinear_arith);
    }
    assert(e4m3_steps(0x38) == 8 * pow2(6));
    assert(e4m3_steps(0x7e) == 14 * pow2(14));
    assert(pow2(6) == 64 && pow2(14) == 0x4000);
    assert(e4m3_value(0x38) == 512 * pow2(140));
    assert(e4m3_value(0x7e) == 229376 * pow2(140));
}

/// No code is nearer to a number than the one that it rounds to, and of two that are
/// equally near it rounds to the even one. The sign is kept, and no code is the one
/// that stands for no number.
pub proof fn no_e4m3_code_is_nearer(bits: u32, code: u8, c: u8)
    requires
        call_ensures(float_to_e4m3, (bits,), code),
        c <= 0x7e,
    ensures
        code >= 0x80 <==> bits >= 0x8000_0000,
        code % 0x80 <= 0x7e,
        bits % 0x8000_0000 > 0x7f80_0000 ==> code % 0x80 == 0,
        bits % 0x8000_0000 <= 0x7f80_0000 && c != code % 0x80 ==> ({
            let x = units(bits % 0x8000_0000) as int;
            let kept = e4m3_value(code as int % 0x80) - x;
            let other = e4m3_value(c as int) - x;
            let near = if kept < 0 { -kept } else { kept };
            let far = if other < 0 { -other } else { other };
            near < far || near == far && code % 2 == 0
        }),
{
    let r = code as int % 0x80;
    assert(magnitude(bits) == bits % 0x8000_0000);
    if is_number(bits) {
        assert(nearest_even_e4m3(magnitude(bits), r));
        assert(e4m3_value(c as int) == e4m3_value(c as int));
    }
}

/// A code that is decoded and encoded again is the same code.
pub proof fn e4m3_codes_come_back(c: u8, bits: u32, code: u8)
    requires
        c <= 0x7e,
        call_ensures(e4m3_to_float, (c,), bits),
        call_ensures(float_to_e4m3, (bits,), code),
    ensures
        code == c,
        units(bits) == e4m3_value(c as int),
        bits < 0x7f80_0000,
{
    assert(magnitude(bits) == bits);
    e4m3_keeps_its_own_values(bits, c as int, code as int % 0x80);
}

/// No value of e4m3 is nearer to a scale than the one that it rounds to, and of two
/// that are equally near it rounds to the smaller one. What is not a positive finite
/// number becomes zero.
pub proof fn no_scale_is_nearer(bits: u32, r: u32, c: u8)
    requires
        call_ensures(ue4m3_round, (bits,), r),
        c <= 0x7e,
    ensures
        bits == 0 || bits >= 0x7f80_0000 ==> r == 0,
        0 < bits < 0x7f80_0000 && units(r) != e4m3_value(c as int) ==> ({
            let x = units(bits) as int;
            let kept = units(r) - x;
            let other = e4m3_value(c as int) - x;
            let near = if kept < 0 { -kept } else { kept };
            let far = if other < 0 { -other } else { other };
            near < far || near == far && units(r) < e4m3_value(c as int)
        }),
        0 < bits < 0x7f80_0000 && units(bits) == e4m3_value(c as int) ==> units(r) == units(bits),
{
    if 0 < bits < 0x7f80_0000 {
        let k = choose|k: int| #[trigger] nearest_low_e4m3(bits, k) && units(r) == e4m3_value(k);
        assert(e4m3_value(c as int) == e4m3_value(c as int));
        if k < c {
            e4m3_grows(k, c as int);
        }
        if units(bits) == e4m3_value(c as int) {
            e4m3_keeps_its_own_values(bits, c as int, k);
        }
    }
}

/// No e2m1 value is nearer to a number than the one of its code, and of two that are
/// equally near the code is that of the smaller one. The sign is kept, and the value
/// that a number rounds to is the value of its code.
pub proof fn no_e2m1_code_is_nearer(bits: u32, code: u8, r: u32, c: u8)
    requires
        call_ensures(e2m1_code, (bits,), code),
        call_ensures(e2m1_round, (bits,), r),
        c < 8,
    ensures
        code < 16,
        code >= 8 <==> bits >= 0x8000_0000,
        r >= 0x8000_0000 <==> bits >= 0x8000_0000,
        bits % 0x8000_0000 >= 0x7f80_0000 ==> code % 8 == 0 && r % 0x8000_0000 == 0,
        bits % 0x8000_0000 < 0x7f80_0000 ==> units(r % 0x8000_0000) == e2m1_value(code as int % 8),
        bits % 0x8000_0000 < 0x7f80_0000 && c != code % 8 ==> ({
            let x = units(bits % 0x8000_0000) as int;
            let kept = e2m1_value(code as int % 8) - x;
            let other = e2m1_value(c as int) - x;
            let near = if kept < 0 { -kept } else { kept };
            let far = if other < 0 { -other } else { other };
            near < far || near == far && code % 8 < c
        }),
{
    let mag = magnitude(bits);
    assert(mag == bits % 0x8000_0000);
    assert(magnitude(r) == r % 0x8000_0000);
    if is_finite(bits) {
        let k = choose|k: int| #[trigger]
            nearest_low_e2m1(mag, k) && units(magnitude(r)) == e2m1_value(k);
        let q = code as int % 8;
        assert(nearest_low_e2m1(mag, q));
        assert(e2m1_value(k) == e2m1_value(k) && e2m1_value(q) == e2m1_value(q));
        assert(k == q);
        assert(e2m1_value(c as int) == e2m1_value(c as int));
    }
}

/// A block's peak is reached by one of its numbers and passed by none.
pub proof fn a_peak_is_the_largest(w: Vec<u32>, from: usize, to: usize, m: u32, k: int)
    requires
        from <= k < to <= w@.len(),
        call_ensures(peak, (&w, from, to), m),
        w@[k] % 0x8000_0000 <= 0x7f80_0000,
    ensures
        w@[k] % 0x8000_0000 <= m,
        m > 0 ==> exists|j: int|
            from <= j < to && (#[trigger] w@[j]) % 0x8000_0000 == m && m <= 0x7f80_0000,
{
    let s = w@.subrange(from as int, to as int);
    assert(s[k - from] == w@[k]);
    assert(magnitude(w@[k]) == w@[k] % 0x8000_0000);
    if m > 0 {
        let j = choose|j: int| 0 <= j < s.len() && is_number(#[trigger] s[j]) && magnitude(s[j]) == m;
        assert(w@[j + from] == s[j]);
    }
}

/// Under its power-of-two scale a magnitude is at most six, and under half that scale
/// it would be more.
pub proof fn a_power_of_two_is_as_small_as_can_be(mag: u32, code: u8)
    requires
        mag <= 0x7f80_0000,
        call_ensures(e8m0_scale, (mag,), code),
    ensures
        mag < 0x7f80_0000 ==> units(mag) <= 6 * pow2((code + 22) as nat),
        0 < mag < 0x7f80_0000 && code > 0 ==> units(mag) > 6 * pow2((code + 21) as nat),
        mag == 0 ==> code == 127,
        mag == 0x7f80_0000 ==> code == 254,
        code <= 254,
{
    if 0 < mag < 0x7f80_0000 && code > 0 {
        assert(e8m0_reach(code - 1) < units(mag));
    }
}

/// A finite magnitude is within reach of every scale from code 253 on.
pub proof fn finite_magnitudes_are_within_reach(mag: u32)
    requires
        mag < 0x7f80_0000,
    ensures
        units(mag) <= 6 * pow2(275),
        units(mag) <= 6 * pow2(276),
{
    units_keep_the_order(mag, 0x7f80_0000);
    lemma2_to64();
    lemma_pow2_adds(23, 254);
    lemma_pow2_adds(2, 275);
    lemma_pow2_adds(1, 275);
    assert(units(0x7f80_0000) == 0x80_0000 * pow2(254));
}

} // verus!
