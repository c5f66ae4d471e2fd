//! The balance chart against exact arithmetic: rounding never tips a row.
//!
//! The chart is drawn from double precision numbers. What it says of a row is
//! nevertheless true of the whole numbers behind them: bytes, seconds, and a rate
//! that is a significand times a power of two.
use crate::binary64;
use crate::binary64::{Binary64, INFINITY_BITS, LEAST};
use crate::chart;
use vstd::arithmetic::power2::*;
use vstd::prelude::*;

verus! {

/// A bit pattern of a rate that is finite and at least the smallest normal number.
pub open spec fn proper_rate(rate: u64) -> bool {
    LEAST <= rate < INFINITY_BITS
}

/// The significand of a rate.
pub open spec fn significand(rate: u64) -> nat {
    (chart::effective_rate(rate)->m) as nat
}

/// The power of two of a rate, counted in bytes per second: a megabyte is `2^20`.
pub open spec fn byte_exponent(rate: u64) -> int {
    chart::effective_rate(rate)->e + 20
}

/// What a row returns, in the unit in which [`owed`] is whole.
pub open spec fn returned(bytes: u64, rate: u64) -> nat {
    if byte_exponent(rate) >= 0 {
        bytes as nat
    } else {
        bytes as nat * pow2((-byte_exponent(rate)) as nat)
    }
}

/// What the rate asks for some seconds, exactly: bytes, or a power of two of them
/// where the rate has a finer unit.
pub open spec fn owed(seconds: u32, rate: u64) -> nat {
    let n = seconds as nat * significand(rate);
    if byte_exponent(rate) >= 0 {
        n * pow2(byte_exponent(rate) as nat)
    } else {
        n
    }
}

proof fn lemma_proper_rate(rate: u64)
    requires
        proper_rate(rate),
    ensures
        chart::effective_rate(rate) is Normal,
        chart::effective_rate(rate).valid(),
{
    assert(1 <= rate / LEAST < 2047);
}

/// Both sides brought to the unit of `2^-2000` megabytes.
proof fn lemma_common_unit(bytes: u64, seconds: u32, rate: u64)
    requires
        proper_rate(rate),
    ensures
        ({
            let e = chart::effective_rate(rate)->e as int;
            let a = bytes as nat * pow2(1980);
            let b = seconds as nat * significand(rate) * pow2((e + 2000) as nat);
            &&& owed(seconds, rate) <= returned(bytes, rate) ==> b <= a
            &&& returned(bytes, rate) <= owed(seconds, rate) ==> a <= b
        }),
{
    lemma_proper_rate(rate);
    let e = chart::effective_rate(rate)->e as int;
    let n = bytes as nat;
    let k = seconds as nat * significand(rate);
    let x = returned(bytes, rate);
    let y = owed(seconds, rate);
    if e + 20 >= 0 {
        let c = pow2(1980);
        lemma_pow2_pos(1980);
        lemma_pow2_adds((e + 20) as nat, 1980);
        let d = pow2((e + 20) as nat);
        assert(y * c == k * (d * c)) by (nonlinear_arith)
            requires
                y == k * d,
        ;
        lemma_scaled_order(x, y, c);
    } else {
        let c = pow2((e + 2000) as nat);
        lemma_pow2_pos((e + 2000) as nat);
        lemma_pow2_adds((-(e + 20)) as nat, (e + 2000) as nat);
        let d = pow2((-(e + 20)) as nat);
        assert(x * c == n * (d * c)) by (nonlinear_arith)
            requires
                x == n * d,
        ;
        lemma_scaled_order(x, y, c);
    }
}

proof fn lemma_scaled_order(x: nat, y: nat, c: nat)
    ensures
        x <= y ==> x * c <= y * c,
        y <= x ==> y * c <= x * c,
{
    assert(x <= y ==> x * c <= y * c) by (nonlinear_arith);
    assert(y <= x ==> y * c <= x * c) by (nonlinear_arith);
}

/// What a number of megabytes stands for in the common unit.
proof fn lemma_megabytes_value(bytes: u64)
    requires
        bytes > 0,
    ensures
        chart::megabytes(bytes) matches Binary64::Normal { m, e } && LEAST <= m
            < binary64::LIMIT && -72 <= e <= -8 && m * pow2((e + 2000) as nat) == binary64::held(
            bytes as nat * pow2(1980),
        ),
{
    let n = bytes as nat;
    binary64::lemma_value_of_word(n);
    let m = binary64::of_nat(n)->m as nat;
    let e = binary64::of_nat(n)->e as int;
    let h = binary64::held(n);
    lemma_pow2_adds((e + 52) as nat, 1928);
    lemma_pow2_adds(52, 1928);
    let a = pow2((e + 52) as nat);
    let b = pow2(1928);
    let c = pow2(52);
    assert(m * (a * b) == h * (c * b)) by (nonlinear_arith)
        requires
            m * a == h * c,
    ;
    binary64::lemma_held_scaled(n, 1980);
}

/// What the rate asks for stands for in the common unit, before it may turn out to
/// be too large.
proof fn lemma_fair_value(seconds: u32, rate: u64) -> (r: (nat, int))
    requires
        proper_rate(rate),
        seconds > 0,
    ensures
        ({
            let e = chart::effective_rate(rate)->e as int;
            &&& LEAST <= r.0 < binary64::LIMIT
            &&& r.1 + 2000 >= 0
            &&& r.0 * pow2((r.1 + 2000) as nat) == binary64::held(
                seconds as nat * significand(rate) * pow2((e + 2000) as nat),
            )
            &&& chart::fair_return(seconds, rate) == if r.1 > 971 {
                Binary64::Infinite
            } else {
                Binary64::Normal { m: r.0 as u64, e: r.1 as i32 }
            }
        }),
{
    lemma_proper_rate(rate);
    let n = seconds as nat;
    let mr = significand(rate);
    let er = chart::effective_rate(rate)->e as int;
    binary64::lemma_value_of_word(n);
    binary64::lemma_held_is_close(n);
    let ms = binary64::of_nat(n)->m as nat;
    let es = binary64::of_nat(n)->e as int;
    let f = es + er;
    let r = binary64::lemma_value_of_product(ms, mr, f);
    let p = ms * mr;
    // The product in the common unit.
    let a = pow2((r.1 - f) as nat);
    let b = pow2((f + 2000) as nat);
    lemma_pow2_adds((r.1 - f) as nat, (f + 2000) as nat);
    assert(r.0 * (a * b) == (r.0 * a) * b) by (nonlinear_arith);
    binary64::lemma_held_scaled(p, (f + 2000) as nat);
    // The seconds are exact.
    let c = pow2((es + 52) as nat);
    let d = pow2((er + 1948) as nat);
    let g = pow2(52);
    lemma_pow2_adds((es + 52) as nat, (er + 1948) as nat);
    lemma_pow2_adds(52, (er + 1948) as nat);
    assert(p * (c * d) == n * mr * (g * d)) by (nonlinear_arith)
        requires
            p == ms * mr,
            ms * c == n * g,
    ;
    r
}

/// Rounding never tips the balance: a row that returns at least what the rate asks
/// keeps the larger number of megabytes, and one that returns at most that keeps the
/// smaller one.
proof fn lemma_magnitudes(bytes: u64, seconds: u32, rate: u64)
    requires
        proper_rate(rate),
    ensures
        owed(seconds, rate) <= returned(bytes, rate) ==> binary64::at_most(
            chart::fair_return(seconds, rate),
            chart::megabytes(bytes),
        ),
        returned(bytes, rate) <= owed(seconds, rate) ==> binary64::at_most(
            chart::megabytes(bytes),
            chart::fair_return(seconds, rate),
        ),
{
    lemma_proper_rate(rate);
    lemma_common_unit(bytes, seconds, rate);
    let er = chart::effective_rate(rate)->e as int;
    let x = bytes as nat * pow2(1980);
    let y = seconds as nat * significand(rate) * pow2((er + 2000) as nat);
    binary64::words_can_be_held(bytes as nat);
    binary64::words_can_be_held(seconds as nat);
    lemma_pow2_pos(1980);
    lemma_pow2_pos((er + 2000) as nat);
    if bytes == 0 {
        assert(x == 0) by (nonlinear_arith)
            requires
                bytes == 0,
                x == bytes as nat * pow2(1980),
        ;
        if seconds > 0 {
            assert(y > 0) by (nonlinear_arith)
                requires
                    y == seconds as nat * significand(rate) * pow2((er + 2000) as nat),
                    seconds > 0,
                    significand(rate) > 0,
                    pow2((er + 2000) as nat) > 0,
            ;
        }
    } else if seconds == 0 {
        assert(y == 0) by (nonlinear_arith)
            requires
                seconds == 0,
                y == seconds as nat * significand(rate) * pow2((er + 2000) as nat),
        ;
        assert(x > 0) by (nonlinear_arith)
            requires
                bytes > 0,
                x == bytes as nat * pow2(1980),
                pow2(1980) > 0,
        ;
    } else {
        lemma_megabytes_value(bytes);
        let (m, e) = lemma_fair_value(seconds, rate);
        let left = chart::megabytes(bytes);
        if y <= x {
            binary64::lemma_held_in_order(y, x);
            binary64::lemma_values_in_order(m, e, left->m as nat, left->e as int, 2000);
        }
        if x <= y {
            binary64::lemma_held_in_order(x, y);
            binary64::lemma_values_in_order(left->m as nat, left->e as int, m, e, 2000);
        }
    }
}

/// No scale and no field tips a row. One that returns at least what the rate asks for
/// its rebuild time, in exact arithmetic, never has the longer bar on the right, and
/// one that returns at most that never has it on the left.
pub proof fn the_lean_is_exact(
    bytes: u64,
    seconds: u32,
    rate: u64,
    scale: Binary64,
    field: usize,
)
    requires
        proper_rate(rate),
        scale.valid(),
    ensures
        ({
            let b = chart::bars_of(chart::units_of(bytes, seconds, rate), scale, field);
            &&& owed(seconds, rate) <= returned(bytes, rate) ==> b.left >= b.right
            &&& returned(bytes, rate) <= owed(seconds, rate) ==> b.left <= b.right && !b.leans()
        }),
{
    lemma_magnitudes(bytes, seconds, rate);
    chart::units_are_valid(bytes, seconds, rate);
    let a = chart::megabytes(bytes);
    let b = chart::fair_return(seconds, rate);
    let u = chart::units_of(bytes, seconds, rate);
    if owed(seconds, rate) <= returned(bytes, rate) {
        binary64::roots_are_in_order(b, a);
        binary64::bits_are_in_order(u.right, u.left);
        chart::more_is_not_drawn_shorter(u.right, u.left, scale);
    }
    if returned(bytes, rate) <= owed(seconds, rate) {
        binary64::roots_are_in_order(a, b);
        binary64::bits_are_in_order(u.left, u.right);
        chart::more_is_not_drawn_shorter(u.left, u.right, scale);
    }
}

/// A row that returns exactly what the rate asks balances, and does not lean.
pub proof fn exact_break_even_balances(
    bytes: u64,
    seconds: u32,
    rate: u64,
    scale: Binary64,
    field: usize,
)
    requires
        proper_rate(rate),
        scale.valid(),
        returned(bytes, rate) == owed(seconds, rate),
    ensures
        ({
            let b = chart::bars_of(chart::units_of(bytes, seconds, rate), scale, field);
            b.left == b.right && !b.leans()
        }),
{
    the_lean_is_exact(bytes, seconds, rate, scale, field);
}

/// A rate is read as the number that its bit pattern stands for.
pub proof fn rates_are_read_as_they_are(rate: u64)
    requires
        proper_rate(rate),
    ensures
        chart::effective_rate(rate).valid(),
        chart::effective_rate(rate).bits() == rate,
{
    lemma_proper_rate(rate);
}

/// A rate is in megabytes of `2^20` bytes per second: what some seconds owe is the seconds
/// times the number that the bit pattern stands for, and what comes back is the bytes, both
/// in the same unit.
pub proof fn a_rate_is_megabytes_per_second(bytes: u64, seconds: u32, rate: u64)
    requires
        proper_rate(rate),
    ensures
        ({
            let m = rate % LEAST + LEAST;
            let k = rate / LEAST - 1075 + 20;
            &&& k >= 0 ==> owed(seconds, rate) == seconds * m * pow2(k as nat)
            &&& k >= 0 ==> returned(bytes, rate) == bytes
            &&& k < 0 ==> owed(seconds, rate) == seconds * m
            &&& k < 0 ==> returned(bytes, rate) == bytes * pow2((-k) as nat)
        }),
{
}

/// What is no positive number counts as the smallest normal one, which asks for next to
/// nothing, and an infinite rate stays infinite.
pub proof fn other_rates_ask_for_next_to_nothing(rate: u64)
    ensures
        rate < LEAST || rate > INFINITY_BITS ==> chart::effective_rate(rate).bits() == LEAST,
        rate == INFINITY_BITS ==> chart::effective_rate(rate) is Infinite,
{
}

} // verus!
