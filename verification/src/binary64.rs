//! Magnitudes in IEEE 754 double precision, computed on integers.
//!
//! The chart and the ranking are defined over double precision numbers that are
//! never negative and never undefined. This module holds those numbers as a
//! 53-bit significand and a power of two, and gives the operations that the
//! chart uses: conversion, quotient, product and square root, each rounded to the
//! nearest number that can be held, ties to the even significand.
use core::cmp::Ordering;
use vstd::arithmetic::power2::*;
use vstd::prelude::*;
use vstd::std_specs::cmp::PartialOrdSpecImpl;

verus! {

/// The smallest significand, `2^52`.
pub const LEAST: u64 = 0x10_0000_0000_0000;

/// One more than the largest significand, `2^53`.
pub const LIMIT: u64 = 0x20_0000_0000_0000;

/// Where products of two significands gain a bit, `2^105`.
pub const MIDDLE: u128 = 0x200_0000_0000_0000_0000_0000_0000;

/// The bit pattern of infinity, above that of every finite number.
pub const INFINITY_BITS: u64 = 0x7FF0_0000_0000_0000;

/// A number that is zero, `m * 2^e`, or too large to be held.
#[derive(Debug, Clone, Copy, PartialEq, Eq, Structural)]
pub enum Binary64 {
    Zero,
    Normal { m: u64, e: i32 },
    Infinite,
}

/// `n / d` rounded to the nearest whole number, ties to the even one.
pub open spec fn nearest(n: nat, d: nat) -> nat {
    let q = n / d;
    let r = n % d;
    if 2 * r > d || (2 * r == d && q % 2 == 1) {
        q + 1
    } else {
        q
    }
}

/// `r` is the whole number nearest to the square root of `n`. There is no tie:
/// the square of a number halfway between two whole ones is not whole.
pub open spec fn is_nearest_root(r: nat, n: nat) -> bool {
    &&& n <= r * r + r
    &&& r > 0 ==> (r - 1) * (r - 1) + (r - 1) < n
}

/// The whole number nearest to the square root of `n`.
pub open spec fn nearest_root(n: nat) -> nat {
    choose|r: nat| is_nearest_root(r, n)
}

/// How many low bits of `n` lie beyond the 53 that can be held.
pub open spec fn excess(n: nat) -> nat
    decreases n,
{
    if n < LIMIT {
        0
    } else {
        1 + excess(n / 2)
    }
}

/// The whole number nearest to `n` that can be held.
pub open spec fn held(n: nat) -> nat {
    nearest(n, pow2(excess(n))) * pow2(excess(n))
}

/// `m * 2^e` brought to a full significand by doubling `m`.
pub open spec fn lifted(m: nat, e: int) -> Binary64
    decreases LIMIT - m,
{
    if m == 0 {
        Binary64::Zero
    } else if m < LEAST {
        lifted(2 * m, e - 1)
    } else {
        settled(m, e)
    }
}

/// `m * 2^e` where rounding may have carried `m` up to the limit and `e` may be
/// beyond what can be held.
pub open spec fn settled(m: nat, e: int) -> Binary64 {
    let (m, e) = if m == LIMIT {
        (LEAST as nat, e + 1)
    } else {
        (m, e)
    };
    if e > 971 {
        Binary64::Infinite
    } else {
        Binary64::Normal { m: m as u64, e: e as i32 }
    }
}

/// The number nearest to a whole one.
pub open spec fn of_nat(n: nat) -> Binary64 {
    lifted(nearest(n, pow2(excess(n))), excess(n) as int)
}

/// The number nearest to `a / b`.
pub open spec fn quotient(a: Binary64, b: Binary64) -> Binary64 {
    match (a, b) {
        (Binary64::Zero, _) => Binary64::Zero,
        (_, Binary64::Infinite) => Binary64::Zero,
        (Binary64::Normal { m: m1, e: e1 }, Binary64::Normal { m: m2, e: e2 }) => {
            if m1 >= m2 {
                settled(nearest((m1 * LEAST) as nat, m2 as nat), e1 - e2 - 52)
            } else {
                settled(nearest((m1 * LIMIT) as nat, m2 as nat), e1 - e2 - 53)
            }
        },
        _ => Binary64::Infinite,
    }
}

/// The significand and the exponent of the number nearest to `a * b`, for
/// significands `m1` and `m2` and the sum `e` of the exponents.
pub open spec fn product_of(m1: nat, m2: nat, e: int) -> Binary64 {
    let p = m1 * m2;
    if p < MIDDLE {
        settled(nearest(p, LEAST as nat), e + 52)
    } else {
        settled(nearest(p, LIMIT as nat), e + 53)
    }
}

/// The number nearest to `a * b`, zero where one of them is. Exponents are not
/// cut off below: a product that small is only ever rounded to a whole number.
pub open spec fn product(a: Binary64, b: Binary64) -> Binary64 {
    match (a, b) {
        (Binary64::Zero, _) => Binary64::Zero,
        (_, Binary64::Zero) => Binary64::Zero,
        (Binary64::Normal { m: m1, e: e1 }, Binary64::Normal { m: m2, e: e2 }) => product_of(
            m1 as nat,
            m2 as nat,
            e1 + e2,
        ),
        _ => Binary64::Infinite,
    }
}

/// The number nearest to the square root of `a`.
pub open spec fn root(a: Binary64) -> Binary64 {
    match a {
        Binary64::Zero => Binary64::Zero,
        Binary64::Infinite => Binary64::Infinite,
        Binary64::Normal { m, e } => if (e as int) % 2 == 0 {
            settled(nearest_root((m * LEAST) as nat), (e - 52) / 2)
        } else {
            settled(nearest_root((m * LIMIT) as nat), (e - 53) / 2)
        },
    }
}

/// A finite number rounded to the nearest whole one, halves upward.
pub open spec fn whole(a: Binary64) -> nat {
    match a {
        Binary64::Zero => 0,
        Binary64::Normal { m, e } => if e >= 0 {
            m as nat * pow2(e as nat)
        } else {
            (m as nat + pow2((-e - 1) as nat)) / pow2((-e) as nat)
        },
        Binary64::Infinite => arbitrary(),
    }
}

impl Binary64 {
    /// A full significand and an exponent that double precision has.
    pub open spec fn valid(self) -> bool {
        match self {
            Binary64::Normal { m, e } => LEAST <= m < LIMIT && -1074 <= e <= 971,
            _ => true,
        }
    }

    /// A full significand, whatever the exponent.
    pub open spec fn full(self) -> bool {
        match self {
            Binary64::Normal { m, e } => LEAST <= m < LIMIT && e <= 971,
            _ => true,
        }
    }

    /// The bit pattern in the IEEE 754 interchange format. Larger numbers have
    /// larger patterns.
    pub open spec fn bits(self) -> int {
        match self {
            Binary64::Zero => 0,
            Binary64::Normal { m, e } => (e + 1074) * LEAST + m,
            Binary64::Infinite => INFINITY_BITS as int,
        }
    }

    /// The bit pattern in the IEEE 754 interchange format.
    pub fn to_bits(self) -> (r: u64)
        requires
            self.valid(),
        ensures
            r == self.bits(),
    {
        match self {
            Binary64::Zero => 0,
            Binary64::Normal { m, e } => {
                let k: u64 = (e + 1074) as u64;
                assert(k * LEAST <= 2045 * LEAST) by (nonlinear_arith)
                    requires
                        k <= 2045,
                ;
                k * LEAST + m
            },
            Binary64::Infinite => INFINITY_BITS,
        }
    }
}

/// Zero comes first and what is too large to be held comes last.
impl PartialOrd for Binary64 {
    fn partial_cmp(&self, other: &Self) -> (r: Option<Ordering>) {
        match (self, other) {
            (Binary64::Zero, Binary64::Zero) => Some(Ordering::Equal),
            (Binary64::Zero, _) => Some(Ordering::Less),
            (_, Binary64::Zero) => Some(Ordering::Greater),
            (Binary64::Infinite, Binary64::Infinite) => Some(Ordering::Equal),
            (Binary64::Infinite, _) => Some(Ordering::Greater),
            (_, Binary64::Infinite) => Some(Ordering::Less),
            (Binary64::Normal { m: m1, e: e1 }, Binary64::Normal { m: m2, e: e2 }) => {
                if *e1 < *e2 || (*e1 == *e2 && *m1 < *m2) {
                    Some(Ordering::Less)
                } else if *e1 == *e2 && *m1 == *m2 {
                    Some(Ordering::Equal)
                } else {
                    Some(Ordering::Greater)
                }
            },
        }
    }
}

impl PartialOrdSpecImpl for Binary64 {
    open spec fn obeys_partial_cmp_spec() -> bool {
        true
    }

    open spec fn partial_cmp_spec(&self, other: &Self) -> Option<Ordering> {
        if *self == *other {
            Some(Ordering::Equal)
        } else if at_most(*self, *other) {
            Some(Ordering::Less)
        } else {
            Some(Ordering::Greater)
        }
    }
}

/// The number that a bit pattern stands for, where it is one of those held here:
/// not negative, not undefined, and zero or at least the smallest normal one.
pub open spec fn from_bits_spec(bits: u64) -> Option<Binary64> {
    if bits == 0 {
        Some(Binary64::Zero)
    } else if bits < LEAST || bits > INFINITY_BITS {
        None
    } else if bits == INFINITY_BITS {
        Some(Binary64::Infinite)
    } else {
        Some(
            Binary64::Normal {
                m: (bits % LEAST + LEAST) as u64,
                e: (bits / LEAST - 1075) as i32,
            },
        )
    }
}

/// Reads a bit pattern in the IEEE 754 interchange format.
pub fn from_bits(bits: u64) -> (r: Option<Binary64>)
    ensures
        r == from_bits_spec(bits),
        r matches Some(x) ==> x.valid() && x.bits() == bits,
{
    if bits == 0 {
        Some(Binary64::Zero)
    } else if bits < LEAST || bits > INFINITY_BITS {
        None
    } else if bits == INFINITY_BITS {
        Some(Binary64::Infinite)
    } else {
        let m: u64 = bits % LEAST + LEAST;
        let k: u64 = bits / LEAST;
        let e: i32 = k as i32 - 1075;
        assert(k < 2047);
        Some(Binary64::Normal { m, e })
    }
}

pub proof fn lemma_nearest_bounds(n: nat, d: nat, lo: nat, hi: nat)
    requires
        d > 0,
        lo * d <= n <= hi * d,
    ensures
        lo <= nearest(n, d) <= hi,
{
    let q = n / d;
    let r = n % d;
    assert(n == q * d + r && 0 <= r < d) by (nonlinear_arith)
        requires
            d > 0,
            q == n / d,
            r == n % d,
    ;
    assert(lo <= q) by (nonlinear_arith)
        requires
            lo * d <= n,
            n == q * d + r,
            0 <= r < d,
    ;
    if q >= hi {
        assert(q == hi && r == 0) by (nonlinear_arith)
            requires
                q >= hi,
                n <= hi * d,
                n == q * d + r,
                0 <= r < d,
        ;
    }
}

/// Rounding moves a quotient by half a step at most.
pub proof fn lemma_nearest_is_close(n: nat, d: nat)
    requires
        d > 1,
    ensures
        (nearest(n, d) - 1) * d < n < (nearest(n, d) + 1) * d,
{
    let q = n / d;
    let r = n % d;
    assert(n == q * d + r && 0 <= r < d) by (nonlinear_arith)
        requires
            d > 1,
            q == n / d,
            r == n % d,
    ;
    assert((q - 1) * d == q * d - d) by (nonlinear_arith);
    assert((q + 1) * d == q * d + d) by (nonlinear_arith);
    assert((q + 2) * d == q * d + 2 * d) by (nonlinear_arith);
}

/// `n / d` rounded to the nearest whole number, ties to the even one.
pub fn nearest_of(n: u128, d: u128) -> (r: u128)
    requires
        d > 0,
        n <= u128::MAX / 4,
        d <= u128::MAX / 4,
    ensures
        r == nearest(n as nat, d as nat),
{
    let q: u128 = n / d;
    let r: u128 = n % d;
    assert(q <= n) by (nonlinear_arith)
        requires
            q == n / d,
            d > 0,
    ;
    if 2 * r > d || (2 * r == d && q % 2 == 1) {
        q + 1
    } else {
        q
    }
}

fn settle(m: u128, e: i32) -> (r: Binary64)
    requires
        LEAST <= m <= LIMIT,
        e < i32::MAX,
    ensures
        r == settled(m as nat, e as int),
        r.full(),
        e >= -1074 ==> r.valid(),
        r matches Binary64::Normal { e: e2, .. } ==> e2 == e || (m == LIMIT && e2 == e + 1),
        r is Infinite ==> e >= 971,
        !(r is Zero),
{
    let (m2, e2): (u64, i32) = if m == LIMIT as u128 {
        (LEAST, e + 1)
    } else {
        (m as u64, e)
    };
    if e2 > 971 {
        Binary64::Infinite
    } else {
        Binary64::Normal { m: m2, e: e2 }
    }
}

proof fn lemma_excess(n: nat)
    ensures
        n < LIMIT * pow2(excess(n)),
        excess(n) > 0 ==> n >= LEAST * pow2(excess(n)),
        n < LIMIT ==> excess(n) == 0,
    decreases n,
{
    if n >= LIMIT {
        lemma_excess(n / 2);
        let k = excess(n / 2);
        lemma_pow2_unfold(k + 1);
        assert(pow2(k + 1) == 2 * pow2(k));
        assert(n < LIMIT * pow2(k + 1)) by (nonlinear_arith)
            requires
                n / 2 < LIMIT * pow2(k),
                pow2(k + 1) == 2 * pow2(k),
        ;
        if k > 0 {
            assert(n >= LEAST * pow2(k + 1)) by (nonlinear_arith)
                requires
                    n / 2 >= LEAST * pow2(k),
                    pow2(k + 1) == 2 * pow2(k),
            ;
        } else {
            lemma2_to64();
        }
    } else {
        lemma2_to64();
    }
}

proof fn lemma_pow2_at_most(a: nat, b: nat)
    requires
        a <= b,
    ensures
        0 < pow2(a) <= pow2(b),
{
    lemma_pow2_pos(a);
    if a < b {
        lemma_pow2_strictly_increases(a, b);
    }
}

fn excess_of(n: u64) -> (r: (i32, u128))
    ensures
        0 <= r.0 <= 11,
        r.0 == excess(n as nat),
        r.1 == pow2(excess(n as nat)),
        1 <= r.1 <= 2048,
{
    let mut k: i32 = 0;
    let mut d: u128 = 1;
    let mut top: u64 = n;
    proof {
        lemma2_to64();
    }
    while top >= LIMIT
        invariant
            0 <= k <= 11,
            d == pow2(k as nat),
            1 <= d <= 2048,
            top * d <= n,
            excess(n as nat) == k + excess(top as nat),
        decreases top,
    {
        proof {
            lemma2_to64();
            if k == 11 {
                assert(top * d >= LIMIT * 2048) by (nonlinear_arith)
                    requires
                        top >= LIMIT,
                        d == 2048,
                ;
            }
            lemma_pow2_at_most(k as nat, 10);
            lemma_pow2_unfold((k + 1) as nat);
        }
        assert((top / 2) * (2 * d) <= n) by (nonlinear_arith)
            requires
                top * d <= n,
                d >= 1,
        ;
        top = top / 2;
        k = k + 1;
        d = 2 * d;
    }
    (k, d)
}

/// The whole number nearest to `n` that can be held.
pub fn hold(n: u64) -> (r: u128)
    ensures
        r == held(n as nat),
        r <= 0x1_0000_0000_0000_0000,
        n < LIMIT ==> r == n,
{
    let (k, d) = excess_of(n);
    let m: u128 = nearest_of(n as u128, d);
    proof {
        lemma_excess(n as nat);
        lemma2_to64();
        lemma_nearest_bounds(n as nat, d as nat, 0, LIMIT as nat);
        assert(m * d <= 0x1_0000_0000_0000_0000) by (nonlinear_arith)
            requires
                0 <= m <= LIMIT,
                1 <= d <= 2048,
        ;
        if n < LIMIT {
            assert(d == 1);
            assert(n as nat / 1 == n && n as nat % 1 == 0);
        }
    }
    m * d
}

/// The number nearest to a whole one.
pub fn from_u64(n: u64) -> (r: Binary64)
    ensures
        r == of_nat(n as nat),
        r.valid(),
        r is Zero <==> n == 0,
        !(r is Infinite),
        r matches Binary64::Normal { m, e } ==> -52 <= e <= 12,
        r matches Binary64::Normal { m, e } ==> n <= u32::MAX ==> e <= -21,
{
    let (k, d) = excess_of(n);
    let mut m: u128 = nearest_of(n as u128, d);
    let mut e: i32 = k;
    proof {
        lemma_excess(n as nat);
        assert(excess(n as nat) == k);
        lemma_nearest_bounds(n as nat, d as nat, 0, LIMIT as nat);
        if k > 0 {
            lemma_nearest_bounds(n as nat, d as nat, LEAST as nat, LIMIT as nat);
        } else {
            lemma2_to64();
            assert(n as nat / 1 == n && n as nat % 1 == 0);
            assert(m == n);
        }
    }
    if m == 0 {
        return Binary64::Zero;
    }
    let ghost m0 = m;
    while m < LEAST as u128
        invariant
            0 < m <= LIMIT,
            0 < m0,
            0 <= k,
            m0 < LIMIT ==> m < LIMIT,
            k > 0 ==> m >= LEAST && e == k,
            k == 0 ==> -52 <= e <= 0 && m == m0 * pow2((-e) as nat),
            lifted(m as nat, e as int) == lifted(m0 as nat, k as int),
        decreases LIMIT - m,
    {
        proof {
            lemma2_to64_rest();
            assert(m0 * pow2((-e) as nat) >= pow2((-e) as nat)) by (nonlinear_arith)
                requires
                    m0 > 0,
            ;
            if e == -52 {
                assert(pow2(52) == LEAST);
            }
            lemma_pow2_unfold((1 - e) as nat);
            let half = pow2((-e) as nat);
            assert(2 * (m0 * half) == m0 * (2 * half)) by (nonlinear_arith);
        }
        m = 2 * m;
        e = e - 1;
    }
    proof {
        if k == 0 && n <= u32::MAX && e > -21 {
            lemma2_to64();
            lemma_pow2_at_most((-e) as nat, 20);
            assert(m0 * pow2((-e) as nat) <= u32::MAX * 0x100000) by (nonlinear_arith)
                requires
                    m0 <= u32::MAX,
                    pow2((-e) as nat) <= 0x100000,
            ;
        }
    }
    settle(m, e)
}

/// The number nearest to `a / b`, for exponents that keep it in range.
pub fn divide(a: Binary64, b: Binary64) -> (r: Binary64)
    requires
        a.valid(),
        b.valid(),
        !(a is Infinite),
        !(b is Zero),
        (a matches Binary64::Normal { e: e1, .. } && b matches Binary64::Normal { e: e2, .. })
            ==> a->e - b->e >= -1021,
    ensures
        r == quotient(a, b),
        r.valid(),
{
    match (a, b) {
        (Binary64::Zero, _) => Binary64::Zero,
        (_, Binary64::Infinite) => Binary64::Zero,
        (Binary64::Normal { m: m1, e: e1 }, Binary64::Normal { m: m2, e: e2 }) => {
            if m1 >= m2 {
                let n: u128 = m1 as u128 * LEAST as u128;
                proof {
                    lemma_nearest_bounds(n as nat, m2 as nat, LEAST as nat, LIMIT as nat);
                }
                settle(nearest_of(n, m2 as u128), e1 - e2 - 52)
            } else {
                let n: u128 = m1 as u128 * LIMIT as u128;
                proof {
                    lemma_nearest_bounds(n as nat, m2 as nat, LEAST as nat, LIMIT as nat);
                }
                settle(nearest_of(n, m2 as u128), e1 - e2 - 53)
            }
        },
        _ => Binary64::Infinite,
    }
}

/// The number nearest to `a * b`, zero where one of them is.
pub fn multiply(a: Binary64, b: Binary64) -> (r: Binary64)
    requires
        a.valid(),
        b.valid(),
    ensures
        r == product(a, b),
        r.full(),
        (a matches Binary64::Normal { e: e1, .. } && b matches Binary64::Normal { e: e2, .. }
            && a->e + b->e >= -1126) ==> r.valid(),
        r is Zero <==> a is Zero || b is Zero,
{
    match (a, b) {
        (Binary64::Zero, _) => Binary64::Zero,
        (_, Binary64::Zero) => Binary64::Zero,
        (Binary64::Normal { m: m1, e: e1 }, Binary64::Normal { m: m2, e: e2 }) => {
            assert(LEAST * LEAST <= m1 * m2 <= LIMIT * LIMIT) by (nonlinear_arith)
                requires
                    LEAST <= m1 < LIMIT,
                    LEAST <= m2 < LIMIT,
            ;
            let p: u128 = m1 as u128 * m2 as u128;
            if p < MIDDLE {
                proof {
                    lemma_nearest_bounds(p as nat, LEAST as nat, LEAST as nat, LIMIT as nat);
                }
                settle(nearest_of(p, LEAST as u128), e1 + e2 + 52)
            } else {
                proof {
                    lemma_nearest_bounds(p as nat, LIMIT as nat, LEAST as nat, LIMIT as nat);
                }
                settle(nearest_of(p, LIMIT as u128), e1 + e2 + 53)
            }
        },
        _ => Binary64::Infinite,
    }
}

/// At most one whole number is nearest to a square root.
pub proof fn nearest_root_is_unique(a: nat, b: nat, n: nat)
    requires
        is_nearest_root(a, n),
        is_nearest_root(b, n),
    ensures
        a == b,
{
    if a < b {
        assert((b - 1) * (b - 1) + (b - 1) >= a * a + a) by (nonlinear_arith)
            requires
                0 <= a <= b - 1,
        ;
    } else if b < a {
        assert((a - 1) * (a - 1) + (a - 1) >= b * b + b) by (nonlinear_arith)
            requires
                0 <= b <= a - 1,
        ;
    }
}

fn nearest_root_of(n: u128) -> (r: u128)
    requires
        LEAST * LEAST <= n < LIMIT * LIMIT,
    ensures
        r == nearest_root(n as nat),
        LEAST <= r <= LIMIT,
{
    let mut lo: u128 = LEAST as u128;
    let mut hi: u128 = LIMIT as u128;
    while lo + 1 < hi
        invariant
            LEAST <= lo < hi <= LIMIT,
            lo * lo <= n < hi * hi,
        decreases hi - lo,
    {
        let mid: u128 = lo + (hi - lo) / 2;
        assert(mid * mid <= LIMIT * LIMIT) by (nonlinear_arith)
            requires
                0 <= mid <= LIMIT,
        ;
        if mid * mid <= n {
            lo = mid;
        } else {
            hi = mid;
        }
    }
    assert(lo * lo <= LIMIT * LIMIT) by (nonlinear_arith)
        requires
            0 <= lo <= LIMIT,
    ;
    assert((lo + 1) * (lo + 1) == lo * lo + 2 * lo + 1) by (nonlinear_arith);
    assert((lo - 1) * (lo - 1) + (lo - 1) == lo * lo - lo) by (nonlinear_arith);
    let r: u128 = if n - lo * lo > lo {
        lo + 1
    } else {
        lo
    };
    proof {
        assert(is_nearest_root(r as nat, n as nat));
        nearest_root_is_unique(r as nat, nearest_root(n as nat), n as nat);
    }
    r
}

/// The number nearest to the square root of `a`.
pub fn square_root(a: Binary64) -> (r: Binary64)
    requires
        a.valid(),
    ensures
        r == root(a),
        r.valid(),
        r is Zero <==> a is Zero,
        r is Infinite <==> a is Infinite,
        r matches Binary64::Normal { m, e } ==> -564 <= e <= 461,
{
    match a {
        Binary64::Zero => Binary64::Zero,
        Binary64::Infinite => Binary64::Infinite,
        Binary64::Normal { m, e } => {
            // Shifted by an even number so that the division below is of a
            // number that is not negative.
            let up: u32 = (e + 2000) as u32;
            assert(LEAST * LEAST <= m * LEAST < LIMIT * LIMIT);
            assert(LEAST * LEAST <= m * LIMIT < LIMIT * LIMIT);
            if up % 2 == 0 {
                let half: i32 = ((up - 52) / 2) as i32 - 1000;
                assert(half == (e - 52) / 2);
                settle(nearest_root_of(m as u128 * LEAST as u128), half)
            } else {
                let half: i32 = ((up - 53) / 2) as i32 - 1000;
                assert(half == (e - 53) / 2);
                settle(nearest_root_of(m as u128 * LIMIT as u128), half)
            }
        },
    }
}

fn power_of_two(k: u32) -> (r: u128)
    requires
        k <= 64,
    ensures
        r == pow2(k as nat),
        1 <= r <= 0x1_0000_0000_0000_0000,
{
    let mut r: u128 = 1;
    let mut i: u32 = 0;
    proof {
        lemma2_to64();
        lemma2_to64_rest();
    }
    while i < k
        invariant
            i <= k <= 64,
            r == pow2(i as nat),
            1 <= r <= pow2(64),
            pow2(64) == 0x1_0000_0000_0000_0000,
        decreases k - i,
    {
        proof {
            lemma_pow2_unfold((i + 1) as nat);
            lemma_pow2_at_most((i + 1) as nat, 64);
        }
        r = 2 * r;
        i = i + 1;
    }
    r
}

/// A number rounded to the nearest whole one, halves upward, and cut off at the
/// largest that a word holds.
pub fn round_to_word(a: Binary64) -> (r: usize)
    requires
        a.full(),
        a matches Binary64::Normal { e, .. } ==> e >= -4000,
    ensures
        a is Infinite ==> r == usize::MAX,
        !(a is Infinite) ==> r == if whole(a) <= usize::MAX {
            whole(a)
        } else {
            usize::MAX as nat
        },
{
    match a {
        Binary64::Zero => 0,
        Binary64::Infinite => usize::MAX,
        Binary64::Normal { m, e } => {
            proof {
                lemma2_to64();
                lemma2_to64_rest();
            }
            if e >= 12 {
                proof {
                    lemma_pow2_at_most(12, e as nat);
                    assert(m as nat * pow2(e as nat) >= LEAST * 4096) by (nonlinear_arith)
                        requires
                            m >= LEAST,
                            pow2(e as nat) >= 4096,
                    ;
                }
                usize::MAX
            } else if e >= 0 {
                let p: u128 = power_of_two(e as u32);
                proof {
                    lemma_pow2_at_most(e as nat, 11);
                }
                assert(m * p < LIMIT * 2048) by (nonlinear_arith)
                    requires
                        m < LIMIT,
                        1 <= p <= 2048,
                ;
                let w: u128 = m as u128 * p;
                if w <= usize::MAX as u128 {
                    w as usize
                } else {
                    usize::MAX
                }
            } else if e <= -55 {
                proof {
                    let k = (-e - 1) as nat;
                    lemma_pow2_at_most(54, k);
                    lemma_pow2_unfold(k + 1);
                    assert((m as nat + pow2(k)) / pow2(k + 1) == 0) by (nonlinear_arith)
                        requires
                            (m as nat) < pow2(k),
                            pow2(k + 1) == 2 * pow2(k),
                    ;
                }
                0
            } else {
                let half: u128 = power_of_two((-e - 1) as u32);
                let unit: u128 = power_of_two((-e) as u32);
                let w: u128 = (m as u128 + half) / unit;
                proof {
                    lemma_pow2_unfold((-e) as nat);
                    assert(w <= m as nat + half) by (nonlinear_arith)
                        requires
                            w == (m as nat + half) / (unit as int),
                            unit >= 1,
                            half >= 0,
                    ;
                    lemma_pow2_at_most((-e - 1) as nat, 53);
                }
                if w <= usize::MAX as u128 {
                    w as usize
                } else {
                    usize::MAX
                }
            }
        },
    }
}

/// The larger of two numbers.
pub fn larger(a: Binary64, b: Binary64) -> (r: Binary64)
    requires
        a.valid(),
        b.valid(),
    ensures
        r == if b.bits() > a.bits() {
            b
        } else {
            a
        },
{
    if b.to_bits() > a.to_bits() {
        b
    } else {
        a
    }
}

/// `a` is not more than `b`.
pub open spec fn at_most(a: Binary64, b: Binary64) -> bool {
    match (a, b) {
        (Binary64::Zero, _) => true,
        (_, Binary64::Infinite) => true,
        (Binary64::Normal { m: m1, e: e1 }, Binary64::Normal { m: m2, e: e2 }) => e1 < e2 || (e1
            == e2 && m1 <= m2),
        _ => false,
    }
}

/// The order of the bit patterns is the order of the numbers.
pub proof fn bits_are_in_order(a: Binary64, b: Binary64)
    requires
        a.valid(),
        b.valid(),
    ensures
        a.bits() <= b.bits() <==> at_most(a, b),
{
    match (a, b) {
        (Binary64::Normal { m: m1, e: e1 }, Binary64::Normal { m: m2, e: e2 }) => {
            if e1 < e2 {
                assert((e1 + 1074) * LEAST + LEAST <= (e2 + 1074) * LEAST) by (nonlinear_arith)
                    requires
                        e1 < e2,
                ;
            } else if e2 < e1 {
                assert((e2 + 1074) * LEAST + LEAST <= (e1 + 1074) * LEAST) by (nonlinear_arith)
                    requires
                        e2 < e1,
                ;
            }
        },
        (Binary64::Normal { m, e }, _) => {
            assert(0 <= (e + 1074) * LEAST <= 2045 * LEAST) by (nonlinear_arith)
                requires
                    -1074 <= e <= 971,
            ;
        },
        (_, Binary64::Normal { m, e }) => {
            assert(0 <= (e + 1074) * LEAST <= 2045 * LEAST) by (nonlinear_arith)
                requires
                    -1074 <= e <= 971,
            ;
        },
        _ => {},
    }
}

pub proof fn lemma_settled_in_order(m1: nat, e1: int, m2: nat, e2: int)
    requires
        LEAST <= m1 <= LIMIT,
        LEAST <= m2 <= LIMIT,
        e1 < e2 || (e1 == e2 && m1 <= m2),
        -5000 <= e1,
        e2 <= 5000,
    ensures
        at_most(settled(m1, e1), settled(m2, e2)),
{
}

pub proof fn lemma_nearest_in_order(n1: nat, n2: nat, d: nat)
    requires
        d > 0,
        n1 <= n2,
    ensures
        nearest(n1, d) <= nearest(n2, d),
{
    let q1 = n1 / d;
    let q2 = n2 / d;
    let r1 = n1 % d;
    let r2 = n2 % d;
    assert(n1 == q1 * d + r1 && n2 == q2 * d + r2 && r1 < d && r2 < d) by (nonlinear_arith)
        requires
            d > 0,
            q1 == n1 / d,
            r1 == n1 % d,
            q2 == n2 / d,
            r2 == n2 % d,
    ;
    assert(q1 < q2 || (q1 == q2 && r1 <= r2)) by (nonlinear_arith)
        requires
            n1 <= n2,
            n1 == q1 * d + r1,
            n2 == q2 * d + r2,
            r1 < d,
            r2 < d,
    ;
}

proof fn lemma_nearest_root_exists(n: nat, s: nat) -> (r: nat)
    requires
        s * s <= n < (s + 1) * (s + 1),
    ensures
        is_nearest_root(r, n),
        r == nearest_root(n),
        s <= r <= s + 1,
{
    let r = if n - s * s > s {
        s + 1
    } else {
        s
    };
    assert((s + 1) * (s + 1) == s * s + 2 * s + 1) by (nonlinear_arith);
    assert((s - 1) * (s - 1) + (s - 1) == s * s - s) by (nonlinear_arith);
    assert(is_nearest_root(r, n));
    nearest_root_is_unique(r, nearest_root(n), n);
    r
}

proof fn lemma_floor_root(n: nat, bound: nat) -> (s: nat)
    requires
        n < bound * bound,
    ensures
        s * s <= n < (s + 1) * (s + 1),
    decreases bound,
{
    assert(bound > 0) by (nonlinear_arith)
        requires
            n < bound * bound,
            n >= 0,
    ;
    let s = (bound - 1) as nat;
    if n < s * s {
        lemma_floor_root(n, s)
    } else {
        s
    }
}

/// The whole number nearest to the square root of two significands is one, or the limit.
pub proof fn lemma_nearest_root_bounds(n: nat)
    requires
        LEAST * LEAST <= n < LIMIT * LIMIT,
    ensures
        is_nearest_root(nearest_root(n), n),
        LEAST <= nearest_root(n) <= LIMIT,
{
    let s = lemma_floor_root(n, LIMIT as nat);
    let r = lemma_nearest_root_exists(n, s);
    assert(LEAST <= s < LIMIT) by (nonlinear_arith)
        requires
            s * s <= n,
            n < (s + 1) * (s + 1),
            LEAST * LEAST <= n < LIMIT * LIMIT,
            s >= 0,
    ;
}

proof fn lemma_nearest_root_in_order(n1: nat, n2: nat)
    requires
        LEAST * LEAST <= n1 <= n2 < LIMIT * LIMIT,
    ensures
        nearest_root(n1) <= nearest_root(n2),
{
    lemma_nearest_root_bounds(n1);
    lemma_nearest_root_bounds(n2);
    let a = nearest_root(n1);
    let b = nearest_root(n2);
    if b < a {
        assert((a - 1) * (a - 1) + (a - 1) >= b * b + b) by (nonlinear_arith)
            requires
                0 <= b <= a - 1,
        ;
    }
}

/// Larger numbers do not have smaller square roots.
pub proof fn roots_are_in_order(a: Binary64, b: Binary64)
    requires
        a.valid(),
        b.valid(),
        at_most(a, b),
    ensures
        at_most(root(a), root(b)),
{
    match (a, b) {
        (Binary64::Normal { m: m1, e: e1 }, Binary64::Normal { m: m2, e: e2 }) => {
            let n1 = if (e1 as int) % 2 == 0 {
                (m1 * LEAST) as nat
            } else {
                (m1 * LIMIT) as nat
            };
            let n2 = if (e2 as int) % 2 == 0 {
                (m2 * LEAST) as nat
            } else {
                (m2 * LIMIT) as nat
            };
            let h1 = if (e1 as int) % 2 == 0 {
                (e1 - 52) / 2
            } else {
                (e1 - 53) / 2
            };
            let h2 = if (e2 as int) % 2 == 0 {
                (e2 - 52) / 2
            } else {
                (e2 - 53) / 2
            };
            assert(LEAST * LEAST <= n1 < LIMIT * LIMIT);
            assert(LEAST * LEAST <= n2 < LIMIT * LIMIT);
            lemma_nearest_root_bounds(n1);
            lemma_nearest_root_bounds(n2);
            assert(h1 <= h2);
            if h1 == h2 {
                assert(n1 <= n2);
                lemma_nearest_root_in_order(n1, n2);
            }
            lemma_settled_in_order(nearest_root(n1), h1, nearest_root(n2), h2);
        },
        _ => {},
    }
}

/// A larger number times the same factor is not a smaller product.
pub proof fn products_are_in_order(a: Binary64, b: Binary64, k: Binary64)
    requires
        a.valid(),
        b.valid(),
        k.valid(),
        at_most(a, b),
    ensures
        at_most(product(a, k), product(b, k)),
        product(a, k).full(),
{
    match (a, b, k) {
        (
            Binary64::Normal { m: m1, e: e1 },
            Binary64::Normal { m: m2, e: e2 },
            Binary64::Normal { m, e },
        ) => {
            let p1 = (m1 * m) as nat;
            let p2 = (m2 * m) as nat;
            assert(LEAST * LEAST <= p1 <= LIMIT * LIMIT) by (nonlinear_arith)
                requires
                    LEAST <= m1 < LIMIT,
                    LEAST <= m < LIMIT,
                    p1 == m1 * m,
            ;
            assert(LEAST * LEAST <= p2 <= LIMIT * LIMIT) by (nonlinear_arith)
                requires
                    LEAST <= m2 < LIMIT,
                    LEAST <= m < LIMIT,
                    p2 == m2 * m,
            ;
            let (d1, x1) = if p1 < MIDDLE {
                (LEAST as nat, e1 + e + 52)
            } else {
                (LIMIT as nat, e1 + e + 53)
            };
            let (d2, x2) = if p2 < MIDDLE {
                (LEAST as nat, e2 + e + 52)
            } else {
                (LIMIT as nat, e2 + e + 53)
            };
            let q1 = nearest(p1, d1);
            let q2 = nearest(p2, d2);
            lemma_nearest_bounds(p1, d1, LEAST as nat, LIMIT as nat);
            lemma_nearest_bounds(p2, d2, LEAST as nat, LIMIT as nat);
            if e1 == e2 {
                assert(p1 <= p2) by (nonlinear_arith)
                    requires
                        m1 <= m2,
                        p1 == m1 * m,
                        p2 == m2 * m,
                ;
                if d1 == d2 {
                    lemma_nearest_in_order(p1, p2, d1);
                }
                lemma_settled_in_order(q1, x1, q2, x2);
            } else if x1 < x2 {
                lemma_settled_in_order(q1, x1, q2, x2);
            } else {
                // The exponents differ by one, and only the first product has
                // the extra bit.
                assert(e2 == e1 + 1 && d1 == LIMIT && d2 == LEAST);
                assert(p1 <= 2 * p2) by (nonlinear_arith)
                    requires
                        m1 < LIMIT,
                        m2 >= LEAST,
                        p1 == m1 * m,
                        p2 == m2 * m,
                ;
                lemma_nearest_in_order(p1, 2 * p2, LIMIT as nat);
                lemma_nearest_doubled(p2);
                lemma_settled_in_order(q1, x1, q2, x2);
            }
        },
        (Binary64::Normal { m: m1, e: e1 }, _, Binary64::Normal { m, e }) => {
            let p1 = (m1 * m) as nat;
            assert(LEAST * LEAST <= p1 <= LIMIT * LIMIT) by (nonlinear_arith)
                requires
                    LEAST <= m1 < LIMIT,
                    LEAST <= m < LIMIT,
                    p1 == m1 * m,
            ;
            if p1 < MIDDLE {
                lemma_nearest_bounds(p1, LEAST as nat, LEAST as nat, LIMIT as nat);
            } else {
                lemma_nearest_bounds(p1, LIMIT as nat, LEAST as nat, LIMIT as nat);
            }
        },
        _ => {},
    }
}

proof fn lemma_nearest_doubled(p: nat)
    ensures
        nearest(2 * p, LIMIT as nat) == nearest(p, LEAST as nat),
{
    assert((2 * p) / LIMIT as nat == p / LEAST as nat);
    assert((2 * p) % LIMIT as nat == 2 * (p % LEAST as nat));
}

proof fn lemma_half_up_in_order(m1: nat, h1: nat, m2: nat, h2: nat, factor: nat)
    requires
        h2 > 0,
        factor >= 2,
        h1 == factor * h2,
        m1 < 2 * m2,
    ensures
        (m1 + h1) / (2 * h1) <= (m2 + h2) / (2 * h2),
{
    let q = (m1 + h1) / (2 * h1);
    assert(h1 > 0) by (nonlinear_arith)
        requires
            h2 > 0,
            factor >= 2,
            h1 == factor * h2,
    ;
    assert(q * (2 * h1) <= m1 + h1) by (nonlinear_arith)
        requires
            q == (m1 + h1) / (2 * h1),
            h1 > 0,
    ;
    let over = 2 * q * h2 - h2;
    assert(factor * over == q * (2 * h1) - h1) by (nonlinear_arith)
        requires
            over == 2 * q * h2 - h2,
            h1 == factor * h2,
    ;
    assert(over <= m2) by {
        if over > 0 {
            assert(2 * over <= factor * over) by (nonlinear_arith)
                requires
                    over > 0,
                    factor >= 2,
            ;
        }
    }
    assert(q <= (m2 + h2) / (2 * h2)) by (nonlinear_arith)
        requires
            2 * q * h2 - h2 <= m2,
            h2 > 0,
    ;
}

/// Larger numbers do not round to smaller whole ones.
pub proof fn wholes_are_in_order(a: Binary64, b: Binary64)
    requires
        a.full(),
        b.full(),
        !(b is Infinite),
        at_most(a, b),
    ensures
        whole(a) <= whole(b),
{
    match (a, b) {
        (Binary64::Normal { m: m1, e: e1 }, Binary64::Normal { m: m2, e: e2 }) => {
            if e1 == e2 {
                if e1 >= 0 {
                    let k = pow2(e1 as nat);
                    assert(m1 as nat * k <= m2 as nat * k) by (nonlinear_arith)
                        requires
                            m1 <= m2,
                    ;
                } else {
                    let h = pow2((-e1 - 1) as nat);
                    let k = pow2((-e1) as nat);
                    lemma_pow2_pos((-e1) as nat);
                    assert((m1 as nat + h) / k <= (m2 as nat + h) / k) by (nonlinear_arith)
                        requires
                            m1 <= m2,
                            k > 0,
                    ;
                }
            } else if e1 >= 0 {
                lemma_pow2_unfold((e1 + 1) as nat);
                lemma_pow2_at_most((e1 + 1) as nat, e2 as nat);
                let k = pow2(e1 as nat);
                assert(m1 as nat * k <= m2 as nat * pow2(e2 as nat)) by (nonlinear_arith)
                    requires
                        m1 < LIMIT,
                        m2 >= LEAST,
                        2 * k <= pow2(e2 as nat),
                        k >= 0,
                ;
            } else if e2 >= 0 {
                let h = pow2((-e1 - 1) as nat);
                lemma_pow2_pos((-e1 - 1) as nat);
                lemma_pow2_unfold((-e1) as nat);
                assert((m1 as nat + h) / (2 * h) <= LEAST) by (nonlinear_arith)
                    requires
                        m1 < LIMIT,
                        h >= 1,
                ;
                lemma_pow2_pos(e2 as nat);
                assert(m2 as nat * pow2(e2 as nat) >= LEAST) by (nonlinear_arith)
                    requires
                        m2 >= LEAST,
                        pow2(e2 as nat) >= 1,
                ;
            } else {
                let h1 = pow2((-e1 - 1) as nat);
                let h2 = pow2((-e2 - 1) as nat);
                let f = pow2((e2 - e1) as nat);
                lemma_pow2_pos((-e2 - 1) as nat);
                lemma_pow2_adds((e2 - e1) as nat, (-e2 - 1) as nat);
                lemma_pow2_at_most(1, (e2 - e1) as nat);
                lemma2_to64();
                lemma_pow2_unfold((-e1) as nat);
                lemma_pow2_unfold((-e2) as nat);
                lemma_half_up_in_order(m1 as nat, h1, m2 as nat, h2, f);
            }
        },
        _ => {},
    }
}


proof fn lemma_lifted(m: nat, e: int, k: nat)
    requires
        0 < m <= LIMIT,
        m * pow2(k) >= LEAST,
        -2000 <= e - k,
        e <= 900,
    ensures
        lifted(m, e) matches Binary64::Normal { m: m2, e: e2 } && LEAST <= m2 < LIMIT && e - k <= e2
            <= e + 1,
    decreases k,
{
    if m < LEAST {
        if k == 0 {
            lemma2_to64();
        } else {
            lemma_pow2_unfold(k);
            assert(2 * m * pow2((k - 1) as nat) == m * pow2(k)) by (nonlinear_arith)
                requires
                    pow2(k) == 2 * pow2((k - 1) as nat),
            ;
            lemma_lifted(2 * m, e - 1, (k - 1) as nat);
        }
    }
}

proof fn lemma_excess_of_a_word(n: nat, bits: nat)
    requires
        n < LIMIT * pow2(bits),
    ensures
        excess(n) <= bits,
    decreases bits,
{
    lemma2_to64();
    if n >= LIMIT && bits > 0 {
        lemma_pow2_unfold(bits);
        assert(n / 2 < LIMIT * pow2((bits - 1) as nat)) by (nonlinear_arith)
            requires
                n < LIMIT * pow2(bits),
                pow2(bits) == 2 * pow2((bits - 1) as nat),
        ;
        lemma_excess_of_a_word(n / 2, (bits - 1) as nat);
    }
}

/// Every whole number that fits a machine word can be held, and only zero as zero.
pub proof fn words_can_be_held(n: nat)
    requires
        n <= u64::MAX,
    ensures
        n == 0 ==> of_nat(n) is Zero,
        n > 0 ==> (of_nat(n) matches Binary64::Normal { m, e } && LEAST <= m < LIMIT && -52 <= e
            <= 12),
{
    lemma2_to64();
    lemma_excess_of_a_word(n, 11);
    lemma_excess(n);
    let k = excess(n);
    let d = pow2(k);
    lemma_pow2_pos(k);
    if n > 0 {
        if k > 0 {
            lemma_nearest_bounds(n, d, LEAST as nat, LIMIT as nat);
            lemma_lifted(nearest(n, d), k as int, 0);
        } else {
            lemma2_to64_rest();
            lemma_nearest_bounds(n, d, n, n);
            assert(n * pow2(52) >= LEAST) by (nonlinear_arith)
                requires
                    n > 0,
                    pow2(52) == LEAST,
            ;
            lemma_lifted(n, 0, 52);
        }
    }
}

/// Products that are not too small can be held.
pub proof fn products_can_be_held(a: Binary64, b: Binary64)
    requires
        a.valid(),
        b.valid(),
        (a matches Binary64::Normal { e: e1, .. } && b matches Binary64::Normal { e: e2, .. })
            ==> a->e + b->e >= -1126,
    ensures
        product(a, b).valid(),
{
    if let (Binary64::Normal { m: m1, e: e1 }, Binary64::Normal { m: m2, e: e2 }) = (a, b) {
        let p = m1 as nat * m2 as nat;
        assert(LEAST * LEAST <= p < LIMIT * LIMIT) by (nonlinear_arith)
            requires
                p == m1 * m2,
                LEAST <= m1 < LIMIT,
                LEAST <= m2 < LIMIT,
        ;
        if p < MIDDLE {
            lemma_nearest_bounds(p, LEAST as nat, LEAST as nat, LIMIT as nat);
        } else {
            lemma_nearest_bounds(p, LIMIT as nat, LEAST as nat, LIMIT as nat);
        }
    }
}

/// Quotients that are not too small can be held.
pub proof fn quotients_can_be_held(a: Binary64, b: Binary64)
    requires
        a.valid(),
        b.valid(),
        (a matches Binary64::Normal { e: e1, .. } && b matches Binary64::Normal { e: e2, .. })
            ==> a->e - b->e >= -1021,
    ensures
        quotient(a, b).valid(),
{
    if let (Binary64::Normal { m: m1, e: e1 }, Binary64::Normal { m: m2, e: e2 }) = (a, b) {
        if m1 >= m2 {
            lemma_nearest_bounds((m1 * LEAST) as nat, m2 as nat, LEAST as nat, LIMIT as nat);
        } else {
            lemma_nearest_bounds((m1 * LIMIT) as nat, m2 as nat, LEAST as nat, LIMIT as nat);
        }
    }
}

/// Square roots can be held, with an exponent about half that of the number.
pub proof fn roots_can_be_held(a: Binary64)
    requires
        a.valid(),
    ensures
        root(a).valid(),
        root(a) is Zero <==> a is Zero,
        root(a) matches Binary64::Normal { m, e } ==> -564 <= e <= 461,
{
    if let Binary64::Normal { m, e } = a {
        let n = if (e as int) % 2 == 0 {
            (m * LEAST) as nat
        } else {
            (m * LIMIT) as nat
        };
        assert(LEAST * LEAST <= n < LIMIT * LIMIT);
        lemma_nearest_root_bounds(n);
    }
}

/// Below `2^53` every whole number is held as it is, and above that it moves by
/// one step of its own size at most.
pub proof fn lemma_held_is_close(n: nat)
    ensures
        n < LIMIT ==> held(n) == n,
        n >= LIMIT ==> LEAST * (held(n) - n) < n && LEAST * (n - held(n)) < n,
{
    let k = excess(n);
    let d = pow2(k);
    lemma_excess(n);
    lemma2_to64();
    if n < LIMIT {
        assert(n / 1 == n && n % 1 == 0);
    } else {
        assert(k > 0);
        lemma_pow2_at_most(1, k);
        lemma_nearest_is_close(n, d);
        let q = nearest(n, d);
        assert(LEAST * (q * d - n) < n && LEAST * (n - q * d) < n) by (nonlinear_arith)
            requires
                (q - 1) * d < n < (q + 1) * d,
                n >= LEAST * d,
        ;
    }
}

proof fn lemma_nearest_within_half(n: nat, d: nat)
    requires
        d > 0,
    ensures
        -d <= 2 * (nearest(n, d) * d - n) <= d,
{
    let q = n / d;
    let r = n % d;
    assert(n == q * d + r && 0 <= r < d) by (nonlinear_arith)
        requires
            d > 0,
            q == n / d,
            r == n % d,
    ;
    assert((q + 1) * d == q * d + d) by (nonlinear_arith);
}

proof fn lemma_lifted_exactly(m: nat, e: int) -> (j: nat)
    requires
        0 < m < LIMIT,
        e <= 971,
    ensures
        LEAST <= m * pow2(j) < LIMIT,
        lifted(m, e) == (Binary64::Normal { m: (m * pow2(j)) as u64, e: (e - j) as i32 }),
        m < LEAST ==> j >= 1,
        2 * m < LEAST ==> j >= 2,
    decreases LIMIT - m,
{
    lemma2_to64();
    if m < LEAST {
        let i = lemma_lifted_exactly(2 * m, e - 1);
        lemma_pow2_unfold(i + 1);
        assert(m * pow2(i + 1) == (2 * m) * pow2(i)) by (nonlinear_arith)
            requires
                pow2(i + 1) == 2 * pow2(i),
        ;
        i + 1
    } else {
        0
    }
}

/// How far two roundings can carry the significand of a whole number away from
/// where it was: `m` for the number, `w` for the divisor.
proof fn lemma_there_and_back(m: nat, w: nat, e: int, f: int) -> (d: int)
    requires
        LEAST <= m < LIMIT - 1,
        LEAST <= w < LIMIT,
        -52 <= e <= 0,
        -564 <= f <= 461,
    ensures
        ({
            let a = Binary64::Normal { m: m as u64, e: e as i32 };
            let b = Binary64::Normal { m: w as u64, e: f as i32 };
            let r = product(b, quotient(a, b));
            ||| -1 <= d <= 1 && r == (Binary64::Normal { m: (m + d) as u64, e: e as i32 })
            ||| d == 2 && m == LEAST && r == (Binary64::Normal {
                m: (LIMIT - 1) as u64,
                e: (e - 1) as i32,
            })
        }),
{
    let s: nat = if m >= w {
        LEAST as nat
    } else {
        LIMIT as nat
    };
    let n = m * s;
    let q = nearest(n, w);
    lemma_nearest_within_half(n, w);
    assert(LEAST * w <= n <= (LIMIT - 1) * w) by (nonlinear_arith)
        requires
            n == m * s,
            LEAST <= m < LIMIT - 1,
            LEAST <= w < LIMIT,
            (m >= w && s == LEAST) || (m < w && s == LIMIT),
            LIMIT == 2 * LEAST,
    ;
    lemma_nearest_bounds(n, w, LEAST as nat, (LIMIT - 1) as nat);
    let p = w * q;
    assert(p == q * w) by (nonlinear_arith)
        requires
            p == w * q,
    ;
    assert(LEAST * LEAST <= p < LIMIT * LIMIT) by (nonlinear_arith)
        requires
            p == w * q,
            LEAST <= w < LIMIT,
            LEAST <= q < LIMIT,
    ;
    assert(-w <= 2 * (p - n) <= w);
    lemma_nearest_within_half(p, LEAST as nat);
    lemma_nearest_within_half(p, LIMIT as nat);
    if m >= w {
        assert(n == m * LEAST);
        assert(p < MIDDLE);
        let k = nearest(p, LEAST as nat);
        k - m
    } else if p >= MIDDLE {
        assert(n == m * LIMIT);
        let k = nearest(p, LIMIT as nat);
        assert(k == m);
        0
    } else {
        assert(n == m * LIMIT);
        let k = nearest(p, LEAST as nat);
        assert(m == LEAST);
        assert(k == LIMIT || k == LIMIT - 1);
        if k == LIMIT {
            0
        } else {
            2
        }
    }
}

/// Dividing a whole number and multiplying by the divisor again gives the number
/// back once it is rounded, as long as the number leaves two bits for fractions.
pub proof fn multiplying_undoes_dividing(n: nat, w: Binary64)
    requires
        0 < n,
        2 * n < LEAST,
        w.valid(),
        w matches Binary64::Normal { e, .. } && -564 <= e <= 461,
    ensures
        !(product(w, quotient(of_nat(n), w)) is Infinite),
        whole(product(w, quotient(of_nat(n), w))) == n,
{
    lemma2_to64();
    lemma_excess(n);
    assert(n / 1 == n && n % 1 == 0);
    let j = lemma_lifted_exactly(n, 0);
    let m = n * pow2(j);
    if j > 52 {
        lemma_pow2_at_most(53, j);
        lemma2_to64_rest();
        assert(n * pow2(j) >= pow2(j)) by (nonlinear_arith)
            requires
                n >= 1,
        ;
    }
    lemma_pow2_unfold(j);
    let half = pow2((j - 1) as nat);
    assert(pow2(j) == 2 * half);
    lemma_pow2_unfold((j - 1) as nat);
    lemma_pow2_pos((j - 2) as nat);
    assert(half >= 2);
    assert(m == 2 * (n * half)) by (nonlinear_arith)
        requires
            m == n * (2 * half),
    ;
    let d = lemma_there_and_back(m, w->m as nat, -j, w->e as int);
    if d == 2 {
        lemma_pow2_unfold(j + 1);
        let big = pow2(j + 1);
        assert(LIMIT - 1 + pow2(j) == n * big + (pow2(j) - 1)) by (nonlinear_arith)
            requires
                LIMIT == 2 * (n * pow2(j)),
                big == 2 * pow2(j),
        ;
        assert((n * big + (pow2(j) - 1)) / big as int == n) by (nonlinear_arith)
            requires
                big == 2 * pow2(j),
                pow2(j) >= 1,
        ;
        assert(whole(Binary64::Normal { m: (LIMIT - 1) as u64, e: (-j - 1) as i32 }) == n);
    } else {
        let top = pow2(j);
        assert(m + d + half == n * top + (half + d));
        assert((n * top + (half + d)) / top as int == n) by (nonlinear_arith)
            requires
                top == 2 * half,
                0 <= half + d < top,
        ;
        assert(whole(Binary64::Normal { m: (m + d) as u64, e: (-j) as i32 }) == n);
    }
}

proof fn lemma_held_doubled(n: nat)
    ensures
        held(2 * n) == 2 * held(n),
{
    lemma2_to64();
    lemma_held_is_close(n);
    if n >= LIMIT {
        let k = excess(n);
        let d = pow2(k);
        assert((2 * n) / 2 == n);
        lemma_pow2_unfold(k + 1);
        lemma_pow2_pos(k);
        assert(pow2(k + 1) == 2 * d);
        let q = n / d;
        let r = n % d;
        assert((2 * n) / (2 * d) == q && (2 * n) % (2 * d) == 2 * r) by (nonlinear_arith)
            requires
                d > 0,
                q == n / d,
                r == n % d,
        ;
        let m = nearest(n, d);
        assert(nearest(2 * n, 2 * d) == m);
        assert(excess(2 * n) == k + 1);
        assert(m * (2 * d) == 2 * (m * d)) by (nonlinear_arith);
    } else if 2 * n >= LIMIT {
        assert((2 * n) / 2 == n);
        assert(excess(n) == 0);
        assert(excess(2 * n) == 1);
        assert((2 * n) % 2 == 0);
        assert(nearest(2 * n, 2) == n);
        assert(held(2 * n) == n * 2);
    } else {
        lemma_held_is_close(2 * n);
    }
}

/// Doubling does not change what is rounded off.
pub proof fn lemma_held_scaled(n: nat, j: nat)
    ensures
        held(n * pow2(j)) == held(n) * pow2(j),
    decreases j,
{
    lemma2_to64();
    if j > 0 {
        let i = (j - 1) as nat;
        lemma_held_scaled(n, i);
        lemma_pow2_unfold(j);
        let a = n * pow2(i);
        let h = held(n) * pow2(i);
        assert(n * pow2(j) == 2 * a) by (nonlinear_arith)
            requires
                pow2(j) == 2 * pow2(i),
                a == n * pow2(i),
        ;
        assert(held(n) * pow2(j) == 2 * h) by (nonlinear_arith)
            requires
                pow2(j) == 2 * pow2(i),
                h == held(n) * pow2(i),
        ;
        lemma_held_doubled(a);
    } else {
        assert(n * 1 == n && held(n) * 1 == held(n));
    }
}

proof fn lemma_excess_in_order(a: nat, b: nat)
    requires
        a <= b,
    ensures
        excess(a) <= excess(b),
    decreases b,
{
    if a >= LIMIT {
        lemma_excess_in_order(a / 2, b / 2);
    }
}

/// Rounding keeps the order.
pub proof fn lemma_held_in_order(a: nat, b: nat)
    requires
        a <= b,
    ensures
        held(a) <= held(b),
{
    lemma_excess_in_order(a, b);
    lemma_excess(a);
    lemma_excess(b);
    let j = excess(a);
    let k = excess(b);
    let c = pow2(j);
    let d = pow2(k);
    lemma_pow2_pos(j);
    lemma_pow2_pos(k);
    let m = nearest(a, c);
    let n = nearest(b, d);
    if j == k {
        lemma_nearest_in_order(a, b, c);
        assert(m * c <= n * d) by (nonlinear_arith)
            requires
                m <= n,
                c == d,
                c > 0,
        ;
    } else {
        lemma_pow2_at_most(j + 1, k);
        lemma_pow2_unfold(j + 1);
        assert(2 * c <= d);
        assert(b <= LIMIT * d);
        lemma_nearest_bounds(a, c, 0, LIMIT as nat);
        lemma_nearest_bounds(b, d, LEAST as nat, LIMIT as nat);
        assert(m * c <= n * d) by (nonlinear_arith)
            requires
                m <= LIMIT,
                n >= LEAST,
                LIMIT == 2 * LEAST,
                2 * c <= d,
                c > 0,
        ;
    }
}

/// What the number nearest to a whole one stands for.
pub proof fn lemma_value_of_word(n: nat)
    requires
        0 < n <= u64::MAX,
    ensures
        of_nat(n) matches Binary64::Normal { m, e } && LEAST <= m < LIMIT && -52 <= e <= 12 && m
            * pow2((e + 52) as nat) == held(n) * pow2(52),
{
    words_can_be_held(n);
    lemma2_to64();
    lemma_excess(n);
    lemma_held_is_close(n);
    let m = of_nat(n)->m;
    let e = of_nat(n)->e;
    if n < LIMIT {
        assert(n / 1 == n && n % 1 == 0);
        let j = lemma_lifted_exactly(n, 0);
        if j > 52 {
            lemma_pow2_at_most(53, j);
            lemma2_to64_rest();
            assert(n * pow2(j) >= pow2(j)) by (nonlinear_arith)
                requires
                    n >= 1,
            ;
        }
        assert(e == -j);
        lemma_pow2_adds(j, (52 - j) as nat);
        assert((n * pow2(j)) * pow2((52 - j) as nat) == n * pow2(52)) by (nonlinear_arith)
            requires
                pow2(j) * pow2((52 - j) as nat) == pow2(52),
        ;
    } else {
        let k = excess(n);
        let q = nearest(n, pow2(k));
        lemma_pow2_pos(k);
        lemma_nearest_bounds(n, pow2(k), LEAST as nat, LIMIT as nat);
        lemma_excess_of_a_word(n, 11);
        assert(k >= 1);
        if q == LIMIT {
            lemma_pow2_unfold(k + 1);
            assert(m * pow2(e as nat) == q * pow2(k)) by (nonlinear_arith)
                requires
                    m == LEAST,
                    q == LIMIT,
                    LIMIT == 2 * LEAST,
                    pow2(e as nat) == 2 * pow2(k),
            ;
        }
        assert(m * pow2(e as nat) == held(n));
        lemma_pow2_adds(e as nat, 52);
        assert(m * (pow2(e as nat) * pow2(52)) == (m * pow2(e as nat)) * pow2(52))
            by (nonlinear_arith);
    }
}

proof fn lemma_excess_of_product(p: nat)
    requires
        LEAST * LEAST <= p < LIMIT * LIMIT,
    ensures
        excess(p) == if p < MIDDLE {
            52nat
        } else {
            53
        },
{
    lemma2_to64();
    lemma2_to64_rest();
    lemma_excess(p);
    let k = excess(p);
    if k < 52 {
        lemma_pow2_at_most(k, 51);
        assert(LIMIT * pow2(k) <= LIMIT * pow2(51)) by (nonlinear_arith)
            requires
                pow2(k) <= pow2(51),
        ;
    }
    if k > 53 {
        lemma_pow2_at_most(54, k);
        assert(LEAST * pow2(k) >= LEAST * pow2(54)) by (nonlinear_arith)
            requires
                pow2(k) >= pow2(54),
        ;
    }
}

/// What a product stands for, before it may turn out to be too large.
pub proof fn lemma_value_of_product(m1: nat, m2: nat, f: int) -> (r: (nat, int))
    requires
        LEAST <= m1 < LIMIT,
        LEAST <= m2 < LIMIT,
        -3000 <= f <= 3000,
    ensures
        LEAST <= r.0 < LIMIT,
        52 <= r.1 - f <= 54,
        r.0 * pow2((r.1 - f) as nat) == held(m1 * m2),
        product_of(m1, m2, f) == if r.1 > 971 {
            Binary64::Infinite
        } else {
            Binary64::Normal { m: r.0 as u64, e: r.1 as i32 }
        },
{
    lemma2_to64();
    lemma2_to64_rest();
    let p = m1 * m2;
    assert(LEAST * LEAST <= p < LIMIT * LIMIT) by (nonlinear_arith)
        requires
            p == m1 * m2,
            LEAST <= m1 < LIMIT,
            LEAST <= m2 < LIMIT,
    ;
    lemma_excess_of_product(p);
    let (d, k): (nat, int) = if p < MIDDLE {
        (LEAST as nat, 52)
    } else {
        (LIMIT as nat, 53)
    };
    lemma_nearest_bounds(p, d, LEAST as nat, LIMIT as nat);
    let q = nearest(p, d);
    assert(pow2(k as nat) == d && pow2((k + 1) as nat) == 2 * d);
    assert(held(p) == q * d);
    if q == LIMIT {
        assert(LEAST * (2 * d) == q * d) by (nonlinear_arith)
            requires
                q == LIMIT,
                LIMIT == 2 * LEAST,
        ;
        (LEAST as nat, f + k + 1)
    } else {
        (q, f + k)
    }
}

/// Full significands compare like the numbers that they stand for.
pub proof fn lemma_values_in_order(m1: nat, e1: int, m2: nat, e2: int, t: int)
    requires
        LEAST <= m1 < LIMIT,
        LEAST <= m2 < LIMIT,
        e1 + t >= 0,
        e2 + t >= 0,
        m1 * pow2((e1 + t) as nat) <= m2 * pow2((e2 + t) as nat),
    ensures
        e1 < e2 || (e1 == e2 && m1 <= m2),
{
    let a = pow2((e1 + t) as nat);
    let b = pow2((e2 + t) as nat);
    lemma_pow2_pos((e1 + t) as nat);
    lemma_pow2_pos((e2 + t) as nat);
    if e1 > e2 {
        lemma_pow2_at_most((e2 + t + 1) as nat, (e1 + t) as nat);
        lemma_pow2_unfold((e2 + t + 1) as nat);
        assert(false) by (nonlinear_arith)
            requires
                m1 * a <= m2 * b,
                2 * b <= a,
                b > 0,
                m1 >= LEAST,
                m2 < LIMIT,
                LIMIT == 2 * LEAST,
        ;
    } else if e1 == e2 && m1 > m2 {
        assert(false) by (nonlinear_arith)
            requires
                m1 * a <= m2 * b,
                a == b,
                b > 0,
                m1 > m2,
        ;
    }
}

} // verus!
