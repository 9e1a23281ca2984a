//! The binary logarithm in fixed point, with sixteen binary places.
//!
//! The number is first doubled until it lies between 1 and 2 as a mantissa
//! of 62 binary places. Each further place of the logarithm is then the
//! carry of one squaring of the mantissa. Every step rounds down, so the
//! result never lies above the logarithm; `lemma_log2_bracket` shows that it
//! lies less than two units of the last place below it.

use vstd::arithmetic::power::{
    lemma_pow0, lemma_pow1, lemma_pow_adds, lemma_pow_distributes, lemma_pow_multiplies,
    lemma_pow_positive, pow,
};
use vstd::arithmetic::power2::{
    lemma2_to64, lemma2_to64_rest, lemma_pow2, lemma_pow2_strictly_increases, lemma_pow2_unfold,
    pow2,
};
use vstd::prelude::*;

verus! {

/// The mantissa that stands for 1: two to the power of 62.
pub const UNIT: u128 = 0x4000_0000_0000_0000;

/// Number of binary places of the logarithm.
pub const PLACES: u64 = 16;

/// The mantissa that stands for 1.
pub open spec fn unit() -> int {
    0x4000_0000_0000_0000
}

/// How often `m` is doubled until it is a mantissa of at least 1.
pub open spec fn doublings(m: int) -> nat
    decreases 2 * unit() - m,
{
    if m <= 0 || m >= unit() {
        0
    } else {
        1 + doublings(2 * m)
    }
}

/// `m`, doubled until it is a mantissa of at least 1.
pub open spec fn normalised(m: int) -> int
    decreases 2 * unit() - m,
{
    if m <= 0 || m >= unit() {
        m
    } else {
        normalised(2 * m)
    }
}

/// The square of a mantissa, as a mantissa, rounded down.
pub open spec fn squared(m: int) -> int {
    m * m / unit()
}

/// The mantissa after one squaring, halved where the square reached 2.
pub open spec fn next_mantissa(m: int) -> int {
    if squared(m) >= 2 * unit() {
        squared(m) / 2
    } else {
        squared(m)
    }
}

/// The binary place that one squaring gives: 1 where the square reached 2.
pub open spec fn next_bit(m: int) -> int {
    if squared(m) >= 2 * unit() {
        1
    } else {
        0
    }
}

/// The mantissa after `i` squarings.
pub open spec fn mantissa_at(m: int, i: nat) -> int
    decreases i,
{
    if i == 0 {
        m
    } else {
        next_mantissa(mantissa_at(m, (i - 1) as nat))
    }
}

/// The first `i` binary places that the squarings give, as a number.
pub open spec fn bits_at(m: int, i: nat) -> int
    decreases i,
{
    if i == 0 {
        0
    } else {
        2 * bits_at(m, (i - 1) as nat) + next_bit(mantissa_at(m, (i - 1) as nat))
    }
}

/// The binary logarithm of `n`, times 65536: the whole part from the
/// doublings, the sixteen places from the squarings.
pub open spec fn log2_fixed(n: int) -> int {
    (62 - doublings(n)) * 65536 + bits_at(normalised(n), 16)
}

/// Whether `l` lies within two units below the binary logarithm of `n`
/// times 65536: two to the power of `l` is no more than `n` to the power of
/// 65536, which is less than two to the power of `l + 2`.
pub open spec fn log2_bracket(n: int, l: int) -> bool {
    &&& 0 <= l
    &&& pow(2, l as nat) <= pow(n, 65536)
    &&& pow(n, 65536) < pow(2, (l + 2) as nat)
}

/// Two to the power of `i`.
pub open spec fn doubled(i: nat) -> nat
    decreases i,
{
    if i == 0 {
        1
    } else {
        2 * doubled((i - 1) as nat)
    }
}

/// The most by which the mantissa after `i` squarings lies below what it
/// stands for, in units of its last place.
pub open spec fn error_at(i: nat) -> int
    decreases i,
{
    if i == 0 {
        0
    } else {
        5 * error_at((i - 1) as nat) + 1
    }
}

proof fn lemma_error_bound(i: nat)
    requires
        i <= 16,
    ensures
        0 <= error_at(i) <= 38146972656,
    decreases 16 - i,
{
    if i == 16 {
        reveal_with_fuel(error_at, 17);
    } else {
        lemma_error_bound(i + 1);
        assert(error_at(i + 1) == 5 * error_at(i) + 1);
        lemma_error_nonnegative(i);
    }
}

proof fn lemma_error_nonnegative(i: nat)
    ensures
        0 <= error_at(i),
    decreases i,
{
    if i > 0 {
        lemma_error_nonnegative((i - 1) as nat);
    }
}

/// The doublings bring a number to a mantissa between 1 and 2.
pub proof fn lemma_normalised(n: int)
    requires
        1 <= n < 2 * unit(),
    ensures
        normalised(n) == n * pow2(doublings(n)),
        unit() <= normalised(n) < 2 * unit(),
        doublings(n) <= 62,
    decreases 2 * unit() - n,
{
    lemma2_to64();
    lemma2_to64_rest();
    if n >= unit() {
        assert(doublings(n) == 0);
        assert(n * pow2(0) == n) by (nonlinear_arith)
            requires
                pow2(0) == 1,
        ;
    } else {
        lemma_normalised(2 * n);
        let d = doublings(2 * n);
        assert(doublings(n) == d + 1);
        assert(normalised(n) == normalised(2 * n));
        lemma_pow2_unfold(d + 1);
        assert(n * pow2(d + 1) == (2 * n) * pow2(d)) by (nonlinear_arith)
            requires
                pow2(d + 1) == 2 * pow2(d),
        ;
        if d >= 62 {
            if d > 62 {
                lemma_pow2_strictly_increases(62, d);
            }
            assert(pow2(d) >= unit());
            assert((2 * n) * pow2(d) >= 2 * unit()) by (nonlinear_arith)
                requires
                    pow2(d) >= unit(),
                    n >= 1,
                    unit() > 0,
            ;
        }
    }
}

/// One squaring keeps the mantissa between the bounds of what it stands
/// for. Here `x / y` is the number that the mantissa `m` stood for with the
/// factor `t` taken out, from `m` up to `m + e`.
proof fn lemma_squaring(x: int, y: int, t: int, m: int, e: int, s: int)
    requires
        s >= 1,
        s <= m < 2 * s,
        0 <= e <= s,
        x >= 1,
        y >= 1,
        t >= 1,
        t * m * y <= x * s,
        x * s <= t * (m + e) * y,
    ensures
        ({
            let m1 = m * m / s;
            let w = (t * t) * (y * y);
            let u = (x * x) * s;
            &&& s <= m1 < 4 * s
            &&& w * m1 <= u
            &&& u <= w * (m1 + 5 * e + 1)
            &&& 2 * w * (m1 / 2) <= u
            &&& m1 >= 2 * s ==> u <= 2 * w * (m1 / 2 + 5 * e + 1)
        }),
{
    let q = m * m;
    let m1 = q / s;
    let w = (t * t) * (y * y);
    let u = (x * x) * s;
    let a = x * s;
    let b = t * m * y;
    let c = t * (m + e) * y;
    assert(q == m1 * s + q % s && 0 <= q % s < s) by (nonlinear_arith)
        requires
            s >= 1,
            m1 == q / s,
    ;
    assert(s * s <= q < 4 * s * s) by (nonlinear_arith)
        requires
            q == m * m,
            1 <= s <= m < 2 * s,
    ;
    assert(s <= m1 < 4 * s) by (nonlinear_arith)
        requires
            q == m1 * s + q % s,
            0 <= q % s < s,
            s * s <= q < 4 * s * s,
            s >= 1,
    ;
    assert(0 <= b) by (nonlinear_arith)
        requires
            b == t * m * y,
            t >= 1,
            m >= 1,
            y >= 1,
    ;
    assert(b * b <= a * a) by (nonlinear_arith)
        requires
            0 <= b <= a,
    ;
    assert(a * a <= c * c) by (nonlinear_arith)
        requires
            0 <= a <= c,
    ;
    assert(a * a == u * s) by (nonlinear_arith)
        requires
            a == x * s,
            u == (x * x) * s,
    ;
    assert(b * b == w * q) by (nonlinear_arith)
        requires
            b == t * m * y,
            w == (t * t) * (y * y),
            q == m * m,
    ;
    assert(c * c == w * ((m + e) * (m + e))) by (nonlinear_arith)
        requires
            c == t * (m + e) * y,
            w == (t * t) * (y * y),
    ;
    assert(w >= 1) by (nonlinear_arith)
        requires
            w == (t * t) * (y * y),
            t >= 1,
            y >= 1,
    ;
    // The lower bound.
    assert(w * q >= (w * m1) * s) by (nonlinear_arith)
        requires
            q >= m1 * s,
            w >= 1,
    ;
    assert(w * m1 <= u) by (nonlinear_arith)
        requires
            u * s >= (w * m1) * s,
            s >= 1,
    ;
    // The upper bound.
    let m1e = m1 + 5 * e + 1;
    assert((m + e) * (m + e) <= s * m1e) by (nonlinear_arith)
        requires
            m * m == m1 * s + q % s,
            q % s < s,
            0 <= e <= s,
            s <= m < 2 * s,
            m1e == m1 + 5 * e + 1,
    ;
    assert(w * ((m + e) * (m + e)) <= (w * m1e) * s) by (nonlinear_arith)
        requires
            (m + e) * (m + e) <= s * m1e,
            w >= 1,
    ;
    assert(u <= w * m1e) by (nonlinear_arith)
        requires
            u * s <= (w * m1e) * s,
            s >= 1,
    ;
    // The halved mantissa.
    let m2 = m1 / 2;
    assert(2 * w * m2 <= w * m1) by (nonlinear_arith)
        requires
            2 * m2 <= m1,
            w >= 1,
    ;
    assert(w * m1e <= 2 * w * (m2 + 5 * e + 1)) by (nonlinear_arith)
        requires
            m1 <= 2 * m2 + 1,
            m1e == m1 + 5 * e + 1,
            e >= 0,
            w >= 1,
    ;
}

/// What the mantissa and the places after `i` squarings say of the number
/// that the first mantissa stands for.
spec fn chain_holds(m0: int, i: nat) -> bool {
    let x = pow(m0, doubled(i));
    let y = pow(unit(), doubled(i));
    let t = pow(2, bits_at(m0, i) as nat);
    let m = mantissa_at(m0, i);
    &&& 0 <= bits_at(m0, i) < doubled(i)
    &&& unit() <= m < 2 * unit()
    &&& x >= 1
    &&& y >= 1
    &&& t >= 1
    &&& t * m * y <= x * unit()
    &&& x * unit() <= t * (m + error_at(i)) * y
}

proof fn lemma_chain(m0: int, i: nat)
    requires
        unit() <= m0 < 2 * unit(),
        i <= 16,
    ensures
        chain_holds(m0, i),
    decreases i,
{
    let s = unit();
    if i == 0 {
        lemma_pow1(m0);
        lemma_pow1(s);
        lemma_pow0(2);
        assert(1 * m0 * s <= m0 * s) by (nonlinear_arith);
        assert(m0 * s <= 1 * (m0 + 0) * s) by (nonlinear_arith);
    } else {
        let j = (i - 1) as nat;
        lemma_chain(m0, j);
        lemma_error_bound(j);
        let e = doubled(j);
        let x = pow(m0, e);
        let y = pow(s, e);
        let b = bits_at(m0, j);
        let t = pow(2, b as nat);
        let m = mantissa_at(m0, j);
        let err = error_at(j);
        lemma_squaring(x, y, t, m, err, s);
        lemma_pow_adds(m0, e, e);
        lemma_pow_adds(s, e, e);
        lemma_pow_adds(2, b as nat, b as nat);
        lemma_pow_adds(2, (2 * b) as nat, 1);
        lemma_pow1(2);
        lemma_pow_positive(m0, doubled(i));
        lemma_pow_positive(s, doubled(i));
        lemma_pow_positive(2, bits_at(m0, i) as nat);
        let m1 = m * m / s;
        let w = (t * t) * (y * y);
        let u = (x * x) * s;
        assert(doubled(i) == e + e);
        assert(pow(m0, doubled(i)) == x * x);
        assert(pow(s, doubled(i)) == y * y);
        assert(squared(m) == m1);
        if m1 >= 2 * s {
            assert(bits_at(m0, i) == 2 * b + 1);
            assert(pow(2, bits_at(m0, i) as nat) == (t * t) * 2);
            assert(mantissa_at(m0, i) == m1 / 2);
            assert(((t * t) * 2) * (m1 / 2) * (y * y) == 2 * w * (m1 / 2)) by (nonlinear_arith)
                requires
                    w == (t * t) * (y * y),
            ;
            assert(((t * t) * 2) * (m1 / 2 + (5 * err + 1)) * (y * y) == 2 * w * (m1 / 2 + 5 * err
                + 1)) by (nonlinear_arith)
                requires
                    w == (t * t) * (y * y),
            ;
        } else {
            assert(bits_at(m0, i) == 2 * b);
            assert(pow(2, bits_at(m0, i) as nat) == t * t);
            assert(mantissa_at(m0, i) == m1);
            assert((t * t) * m1 * (y * y) == w * m1) by (nonlinear_arith)
                requires
                    w == (t * t) * (y * y),
            ;
            assert((t * t) * (m1 + (5 * err + 1)) * (y * y) == w * (m1 + 5 * err + 1))
                by (nonlinear_arith)
                requires
                    w == (t * t) * (y * y),
            ;
        }
    }
}

/// The fixed-point logarithm lies within two units below the logarithm: for
/// `l = log2_fixed(n)`, two to the power of `l` is no more than `n` to the
/// power of 65536, which is less than two to the power of `l + 2`.
pub proof fn lemma_log2_bracket(n: int)
    requires
        1 <= n < 2 * unit(),
    ensures
        log2_bracket(n, log2_fixed(n)),
        log2_fixed(n) < 63 * 65536,
{
    let s = unit();
    let d = doublings(n);
    let m0 = normalised(n);
    lemma_normalised(n);
    lemma_chain(m0, 16);
    lemma_error_bound(16);
    reveal_with_fuel(doubled, 17);
    assert(doubled(16) == 65536);
    let bits = bits_at(m0, 16);
    let l = log2_fixed(n);
    let x = pow(m0, 65536);
    let y = pow(s, 65536);
    let t = pow(2, bits as nat);
    let m = mantissa_at(m0, 16);
    let big = pow(n, 65536);
    let shift = pow(2, (d * 65536) as nat);
    // The bounds of the chain, with the mantissa taken out.
    assert(t * y <= x) by (nonlinear_arith)
        requires
            t * m * y <= x * s,
            s <= m,
            t >= 1,
            y >= 1,
            s >= 1,
    ;
    assert(x < 4 * t * y) by (nonlinear_arith)
        requires
            x * s <= t * (m + error_at(16)) * y,
            m < 2 * s,
            0 <= error_at(16) <= s,
            t >= 1,
            y >= 1,
            s >= 1,
    ;
    // The first mantissa is the number times a power of two, and the unit is one.
    lemma_pow2(d);
    lemma_pow2(62);
    lemma2_to64_rest();
    assert(s == pow(2, 62));
    lemma_pow_distributes(n, pow(2, d), 65536);
    lemma_pow_multiplies(2, d, 65536);
    lemma_pow_multiplies(2, 62, 65536);
    assert(x == big * shift);
    assert(y == pow(2, (62 * 65536) as nat));
    // Two to the power of `l`, times the shift, is `t * y`.
    lemma_pow_adds(2, l as nat, (d * 65536) as nat);
    lemma_pow_adds(2, bits as nat, (62 * 65536) as nat);
    assert(l + d * 65536 == bits + 62 * 65536);
    assert(pow(2, l as nat) * shift == t * y);
    lemma_pow_adds(2, l as nat, 2);
    lemma_pow_adds(2, 1, 1);
    lemma_pow1(2);
    assert(pow(2, (l + 2) as nat) == pow(2, l as nat) * 4);
    lemma_pow_positive(2, (d * 65536) as nat);
    let low = pow(2, l as nat);
    assert(4 * t * y == 4 * (t * y)) by (nonlinear_arith);
    assert(low <= big) by (nonlinear_arith)
        requires
            low * shift <= big * shift,
            shift >= 1,
    ;
    assert(big < low * 4) by (nonlinear_arith)
        requires
            big * shift < 4 * (low * shift),
            shift >= 1,
    ;
}

/// The binary logarithm of `n`, times 65536, to within two units below.
pub fn log2_fixed_of(n: u64) -> (l: u64)
    requires
        1 <= n < 0x8000_0000_0000_0000,
    ensures
        l == log2_fixed(n as int),
        log2_bracket(n as int, l as int),
        l < 63 * 65536,
{
    proof {
        lemma_normalised(n as int);
        lemma_log2_bracket(n as int);
    }
    let mut m: u128 = n as u128;
    let mut d: u64 = 0;
    while m < UNIT
        invariant
            1 <= m < 2 * unit(),
            d + doublings(m as int) == doublings(n as int),
            normalised(m as int) == normalised(n as int),
            doublings(n as int) <= 62,
        decreases 2 * unit() - m,
    {
        m = 2 * m;
        d = d + 1;
    }
    let ghost m0 = m as int;
    let mut bits: u64 = 0;
    let mut i: u64 = 0;
    while i < PLACES
        invariant
            i <= 16,
            m0 == normalised(n as int),
            unit() <= m0 < 2 * unit(),
            m == mantissa_at(m0, i as nat),
            bits == bits_at(m0, i as nat),
            unit() <= m < 2 * unit(),
            0 <= bits < doubled(i as nat),
            doubled(i as nat) <= 65536,
        decreases 16 - i,
    {
        proof {
            lemma_chain(m0, (i + 1) as nat);
            lemma_doubled_bound((i + 1) as nat);
            assert(m * m < 4 * unit() * unit()) by (nonlinear_arith)
                requires
                    0 <= m < 2 * unit(),
            ;
        }
        let square: u128 = m * m / UNIT;
        if square >= 2 * UNIT {
            m = square / 2;
            bits = 2 * bits + 1;
        } else {
            m = square;
            bits = 2 * bits;
        }
        i = i + 1;
    }
    (62 - d) * 65536 + bits
}

proof fn lemma_doubled_bound(i: nat)
    requires
        i <= 16,
    ensures
        1 <= doubled(i) <= 65536,
    decreases 16 - i,
{
    if i == 16 {
        reveal_with_fuel(doubled, 17);
    } else {
        lemma_doubled_bound(i + 1);
    }
}

} // verus!
