//! How long bars are: every step is rounded to the nearest number that can be held, and
//! lengths go by square roots.
use crate::binary64;
use crate::binary64::{Binary64, LEAST, LIMIT, MIDDLE};
use crate::chart;
use crate::rates;
use vstd::arithmetic::power2::*;
use vstd::prelude::*;

verus! {

/// `p` is within half a step of `m` steps of size `d`.
pub open spec fn within_half_a_step(p: nat, m: nat, d: nat) -> bool {
    2 * (m * d - p) <= d && 2 * (p - m * d) <= d
}

proof fn lemma_settled_is_near(p: nat, d: nat, e: int)
    requires
        d > 0,
        LEAST * d <= p <= LIMIT * d,
        -3000 <= e <= 3000,
    ensures
        binary64::settled(binary64::nearest(p, d), e) matches Binary64::Normal { m, e: f } ==> {
            ||| f == e && within_half_a_step(p, m as nat, d)
            ||| f == e + 1 && within_half_a_step(p, m as nat, 2 * d)
        },
{
    let q = binary64::nearest(p, d);
    rates::lemma_half_a_step(p, d);
    binary64::lemma_nearest_bounds(p, d, LEAST as nat, LIMIT as nat);
    if q == LIMIT {
        assert(LEAST * (2 * d) == LIMIT * d) by (nonlinear_arith)
            requires
                LIMIT == 2 * LEAST,
        ;
        assert(within_half_a_step(p, LEAST as nat, 2 * d));
    }
}

/// A product is the number nearest to it: the product of the significands is within half
/// a step of the significand that is held.
pub proof fn products_are_nearest(m1: u64, e1: i32, m2: u64, e2: i32)
    requires
        LEAST <= m1 < LIMIT,
        LEAST <= m2 < LIMIT,
        -1100 <= e1 <= 1000,
        -1100 <= e2 <= 1000,
    ensures
        binary64::product(Binary64::Normal { m: m1, e: e1 }, Binary64::Normal { m: m2, e: e2 })
            matches Binary64::Normal { m, e } ==> 52 <= e - e1 - e2 <= 54 && within_half_a_step(
            m1 as nat * m2 as nat,
            m as nat,
            pow2((e - e1 - e2) as nat),
        ),
{
    let p = m1 as nat * m2 as nat;
    let e = e1 + e2;
    lemma2_to64_rest();
    assert(LEAST * LEAST <= p < LIMIT * LIMIT) by (nonlinear_arith)
        requires
            p == m1 * m2,
            LEAST <= m1 < LIMIT,
            LEAST <= m2 < LIMIT,
    ;
    assert(LIMIT * LEAST == MIDDLE);
    if p < MIDDLE {
        lemma_settled_is_near(p, LEAST as nat, e + 52);
    } else {
        lemma_settled_is_near(p, LIMIT as nat, e + 53);
    }
}

/// A quotient is the number nearest to it.
pub proof fn quotients_are_nearest(m1: u64, e1: i32, m2: u64, e2: i32)
    requires
        LEAST <= m1 < LIMIT,
        LEAST <= m2 < LIMIT,
        -1100 <= e1 <= 1000,
        -1100 <= e2 <= 1000,
    ensures
        binary64::quotient(Binary64::Normal { m: m1, e: e1 }, Binary64::Normal { m: m2, e: e2 })
            matches Binary64::Normal { m, e } ==> ({
            let k = e1 - e2 - e;
            ||| k == 53 && within_half_a_step(m1 as nat * LIMIT as nat, m as nat, m2 as nat)
            ||| k == 52 && within_half_a_step(m1 as nat * LEAST as nat, m as nat, m2 as nat)
            ||| k == 52 && within_half_a_step(m1 as nat * LIMIT as nat, m as nat, 2 * m2 as nat)
            ||| k == 51 && within_half_a_step(m1 as nat * LEAST as nat, m as nat, 2 * m2 as nat)
        }),
{
    let e = e1 - e2;
    if m1 >= m2 {
        let n = m1 as nat * LEAST as nat;
        assert(LEAST * m2 <= n <= LIMIT * m2) by (nonlinear_arith)
            requires
                n == m1 * LEAST,
                m2 <= m1 < LIMIT,
                LEAST <= m2,
        ;
        assert(n == (m1 * LEAST) as nat);
        lemma_settled_is_near(n, m2 as nat, e - 52);
    } else {
        let n = m1 as nat * LIMIT as nat;
        assert(LEAST * m2 <= n <= LIMIT * m2) by (nonlinear_arith)
            requires
                n == m1 * LIMIT,
                LEAST <= m1 < m2,
                m2 < LIMIT,
                LIMIT == 2 * LEAST,
        ;
        assert(n == (m1 * LIMIT) as nat);
        lemma_settled_is_near(n, m2 as nat, e - 53);
    }
}

/// A square root is the number nearest to it: what it is taken of lies between the squares
/// of the numbers half a step below and half a step above.
pub proof fn roots_are_nearest(m: u64, e: i32)
    requires
        LEAST <= m < LIMIT,
        -1100 <= e <= 1000,
    ensures
        binary64::root(Binary64::Normal { m, e }) matches Binary64::Normal { m: r, e: f } && {
            let n = if (e as int) % 2 == 0 {
                m * LEAST
            } else {
                m * LIMIT
            };
            &&& LEAST <= r < LIMIT
            &&& 2 * f == e - (if (e as int) % 2 == 0 {
                52int
            } else {
                53
            })
            &&& (2 * r - 1) * (2 * r - 1) < 4 * n < (2 * r + 1) * (2 * r + 1)
        },
{
    let n = if (e as int) % 2 == 0 {
        (m * LEAST) as nat
    } else {
        (m * LIMIT) as nat
    };
    assert(LEAST * LEAST <= n <= (LIMIT - 1) * LIMIT) by (nonlinear_arith)
        requires
            n == m * LEAST || n == m * LIMIT,
            LEAST <= m <= LIMIT - 1,
            LIMIT == 2 * LEAST,
    ;
    assert((LIMIT - 1) * LIMIT < LIMIT * LIMIT);
    binary64::lemma_nearest_root_bounds(n);
    let r = binary64::nearest_root(n);
    if r == LIMIT {
        assert((r - 1) * (r - 1) + (r - 1) == (LIMIT - 1) * LIMIT) by (nonlinear_arith)
            requires
                r == LIMIT,
        ;
    }
    assert((2 * r - 1) * (2 * r - 1) == 4 * (r * r) - 4 * r + 1) by (nonlinear_arith);
    assert((2 * r + 1) * (2 * r + 1) == 4 * (r * r) + 4 * r + 1) by (nonlinear_arith);
    assert((r - 1) * (r - 1) + (r - 1) == r * r - r) by (nonlinear_arith);
}

/// A finite number that is rounded to a whole one moves by half a cell at most, and a bar
/// that is not empty has as many cells as that, one at least.
pub proof fn bars_are_rounded_to_cells(magnitude: Binary64, scale: Binary64)
    requires
        !(magnitude is Zero),
        binary64::product(magnitude, scale) is Normal,
        chart::cells_wanted(magnitude, scale) < usize::MAX,
    ensures
        chart::cells_wanted(magnitude, scale) >= 1,
        binary64::product(magnitude, scale) matches Binary64::Normal { m, e } ==> (e < 0 ==> ({
            let n = chart::cells_wanted(magnitude, scale);
            let d = pow2((-e) as nat);
            within_half_a_step(m as nat, n, d) || (n == 1 && 2 * m < d)
        })),
{
    match binary64::product(magnitude, scale) {
        Binary64::Normal { m, e } => {
            if e < 0 {
                let k = (-e) as nat;
                let d = pow2(k);
                let h = pow2((k - 1) as nat);
                lemma_pow2_pos(k);
                lemma_pow2_unfold(k);
                assert(d == 2 * h);
                let n = (m as nat + h) / d;
                assert(n * d <= m + h < n * d + d) by (nonlinear_arith)
                    requires
                        d > 0,
                        n == (m as nat + h) / d,
                ;
                if n == 0 {
                    assert(n * d == 0);
                }
            }
        },
        _ => {},
    }
}

proof fn lemma_lifted_shifts(m: nat, e: int, room: nat)
    requires
        0 < m <= LIMIT,
        m * pow2(room) >= LEAST,
        e <= 200,
        e - room >= -2000,
    ensures
        times_power_of_two(binary64::lifted(m, e), binary64::lifted(m, e + 1), 1),
    decreases room,
{
    if m < LEAST {
        lemma2_to64();
        if room == 0 {
            let one = pow2(room);
            assert(m * one == m) by (nonlinear_arith)
                requires
                    one == 1,
            ;
        }
        lemma_pow2_unfold(room);
        let h = pow2((room - 1) as nat);
        assert((2 * m) * h == m * (2 * h)) by (nonlinear_arith);
        lemma_lifted_shifts(2 * m, e - 1, (room - 1) as nat);
    }
}

/// The second number is the first times a power of two.
pub open spec fn times_power_of_two(a: Binary64, b: Binary64, k: int) -> bool {
    match (a, b) {
        (Binary64::Normal { m: m1, e: e1 }, Binary64::Normal { m: m2, e: e2 }) => m1 == m2 && e2
            == e1 + k,
        _ => false,
    }
}

proof fn lemma_excess_is_small(n: nat, k: nat)
    requires
        n < LIMIT * pow2(k),
    ensures
        binary64::excess(n) <= k,
    decreases k,
{
    lemma2_to64();
    if n >= LIMIT {
        if k == 0 {
            assert(LIMIT * pow2(k) == LIMIT);
        }
        lemma_pow2_unfold(k);
        let h = pow2((k - 1) as nat);
        assert(LIMIT * (2 * h) == 2 * (LIMIT * h)) by (nonlinear_arith);
        lemma_excess_is_small(n / 2, (k - 1) as nat);
    }
}

proof fn lemma_doubled(n: nat)
    requires
        0 < n,
        2 * n <= u64::MAX,
    ensures
        times_power_of_two(binary64::of_nat(n), binary64::of_nat(2 * n), 1),
{
    lemma2_to64();
    lemma2_to64_rest();
    let x = binary64::excess(n);
    let p = pow2(x);
    lemma_pow2_pos(x);
    assert(LIMIT * pow2(11) > u64::MAX);
    lemma_excess_is_small(n, 11);
    let q = binary64::nearest(n, p);
    if 2 * n < LIMIT {
        assert(binary64::nearest(n, 1) == n);
        assert(binary64::nearest(2 * n, 1) == 2 * n);
        assert((2 * n) * pow2(53) >= LEAST) by (nonlinear_arith)
            requires
                pow2(53) >= LEAST,
                n >= 1,
        ;
        lemma_lifted_shifts(2 * n, -1, 53);
    } else {
        assert((2 * n) / 2 == n);
        assert(binary64::excess(2 * n) == 1 + x);
        lemma_pow2_unfold(x + 1);
        rates::lemma_nearest_scaled(n, p, 2);
        assert(binary64::nearest(2 * n, pow2(x + 1)) == q);
        lemma_top(n);
        assert(q * pow2(53) >= LEAST) by (nonlinear_arith)
            requires
                pow2(53) >= LEAST,
                q >= 1,
        ;
        lemma_lifted_shifts(q, x as int, 53);
    }
}

/// What is left of a number without the bits that cannot be held is a significand at
/// most.
proof fn lemma_top(n: nat)
    requires
        n > 0,
    ensures
        1 <= binary64::nearest(n, pow2(binary64::excess(n))) <= LIMIT,
{
    let x = binary64::excess(n);
    lemma_pow2_pos(x);
    lemma_below_limit(n);
    let p = pow2(x);
    binary64::lemma_nearest_bounds(n, p, 1, LIMIT as nat);
}

proof fn lemma_below_limit(n: nat)
    requires
        n > 0,
    ensures
        pow2(binary64::excess(n)) <= n <= LIMIT * pow2(binary64::excess(n)),
    decreases n,
{
    lemma2_to64();
    let x = binary64::excess(n);
    if n >= LIMIT {
        lemma_below_limit_strictly(n);
        lemma_below_limit(n / 2);
        lemma_pow2_unfold(x);
        let h = pow2((x - 1) as nat);
        assert(LIMIT * (2 * h) == 2 * (LIMIT * h)) by (nonlinear_arith);
    }
}

proof fn lemma_below_limit_strictly(n: nat)
    ensures
        n < LIMIT * pow2(binary64::excess(n)),
    decreases n,
{
    lemma2_to64();
    let x = binary64::excess(n);
    if n >= LIMIT {
        lemma_below_limit_strictly(n / 2);
        lemma_pow2_unfold(x);
        let h = pow2((x - 1) as nat);
        assert(LIMIT * (2 * h) == 2 * (LIMIT * h)) by (nonlinear_arith);
    }
}

/// Lengths go by square roots: four times the bytes are drawn twice as long, exactly, and
/// so are four times the seconds as long as the magnitude is finite.
pub proof fn four_times_as_much_is_twice_as_long(bytes: u64, seconds: u32, rate: u64)
    ensures
        0 < bytes && 4 * bytes <= u64::MAX ==> times_power_of_two(
            chart::units_of(bytes, seconds, rate).left,
            chart::units_of((4 * bytes) as u64, seconds, rate).left,
            1,
        ),
        0 < seconds && 4 * seconds <= u32::MAX && !(chart::units_of(
            bytes,
            (4 * seconds) as u32,
            rate,
        ).right is Infinite) ==> times_power_of_two(
            chart::units_of(bytes, seconds, rate).right,
            chart::units_of(bytes, (4 * seconds) as u32, rate).right,
            1,
        ),
{
    if 0 < bytes && 4 * bytes <= u64::MAX {
        lemma_doubled(bytes as nat);
        lemma_doubled(2 * bytes as nat);
        assert(2 * (2 * bytes as nat) == (4 * bytes) as u64 as nat);
        binary64::words_can_be_held(bytes as nat);
        binary64::words_can_be_held((4 * bytes) as nat);
        lemma_root_shifts(chart::megabytes(bytes), chart::megabytes((4 * bytes) as u64));
    }
    if 0 < seconds && 4 * seconds <= u32::MAX {
        lemma_doubled(seconds as nat);
        lemma_doubled(2 * seconds as nat);
        assert(2 * (2 * seconds as nat) == (4 * seconds) as u32 as nat);
        binary64::words_can_be_held(seconds as nat);
        binary64::words_can_be_held((4 * seconds) as nat);
        let r = chart::effective_rate(rate);
        let a = chart::fair_return(seconds, rate);
        let b = chart::fair_return((4 * seconds) as u32, rate);
        if r is Normal && b is Normal {
            chart::units_are_valid(bytes, seconds, rate);
            assert(times_power_of_two(a, b, 2));
            lemma_root_shifts(a, b);
        }
    }
}

proof fn lemma_root_shifts(a: Binary64, b: Binary64)
    requires
        times_power_of_two(a, b, 2),
        a matches Binary64::Normal { m, e } && LEAST <= m < LIMIT && -1100 <= e <= 971,
    ensures
        times_power_of_two(binary64::root(a), binary64::root(b), 1),
{
    roots_are_nearest(a->m, a->e);
    roots_are_nearest(b->m, b->e);
}

} // verus!
