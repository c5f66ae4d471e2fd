//! What targets are ranked by, against exact arithmetic: bytes that come back per second
//! of rebuild.
use crate::binary64;
use crate::binary64::{LEAST, LIMIT};
use crate::scan::TargetView;
use vstd::arithmetic::power2::*;
use vstd::prelude::*;

verus! {

/// What comes back of a target: its bytes without those that are linked from elsewhere.
pub open spec fn freed(t: TargetView) -> int {
    if t.bytes >= t.shared_bytes {
        t.bytes - t.shared_bytes
    } else {
        0
    }
}

/// How long a target takes to rebuild, a second at least.
pub open spec fn time(t: TargetView) -> int {
    if t.rebuild_seconds >= 1 {
        t.rebuild_seconds as int
    } else {
        1
    }
}

/// Deleting a target gives back its bytes without those that are linked from elsewhere.
pub proof fn linked_bytes_do_not_come_back(t: TargetView)
    ensures
        t.reclaimable() == freed(t),
        t.shared_bytes <= t.bytes ==> t.reclaimable() + t.shared_bytes == t.bytes,
{
}

/// A quotient does not change where both sides are multiplied.
pub proof fn lemma_nearest_scaled(n: nat, d: nat, k: nat)
    requires
        d > 0,
        k > 0,
    ensures
        binary64::nearest(n * k, d * k) == binary64::nearest(n, d),
{
    let q = n / d;
    let r = n % d;
    assert(n == q * d + r && r < d) by (nonlinear_arith)
        requires
            d > 0,
            q == n / d,
            r == n % d,
    ;
    assert(n * k == q * (d * k) + r * k && r * k < d * k && d * k > 0) by (nonlinear_arith)
        requires
            n == q * d + r,
            r < d,
            k > 0,
            d > 0,
            r >= 0,
    ;
    let e = d * k;
    let s = r * k;
    assert((n * k) / e == q && (n * k) % e == s) by (nonlinear_arith)
        requires
            n * k == q * e + s,
            0 <= s < e,
    ;
    assert(2 * s > e <==> 2 * r > d) by (nonlinear_arith)
        requires
            s == r * k,
            e == d * k,
            k > 0,
    ;
    assert(2 * s == e <==> 2 * r == d) by (nonlinear_arith)
        requires
            s == r * k,
            e == d * k,
            k > 0,
    ;
}

/// Rounding moves a quotient by half a step at most.
pub proof fn lemma_half_a_step(n: nat, d: nat)
    requires
        d > 0,
    ensures
        2 * (binary64::nearest(n, d) * d - n) <= d,
        2 * (n - binary64::nearest(n, d) * d) <= d,
{
    let q = n / d;
    let r = n % d;
    assert(n == q * d + r && r < d) by (nonlinear_arith)
        requires
            d > 0,
            q == n / d,
            r == n % d,
    ;
    assert((q + 1) * d == q * d + d) by (nonlinear_arith);
}

/// A quotient of two whole numbers as it is held: a fraction of significands and a power
/// of two.
struct Fraction {
    n: nat,
    d: nat,
    e: int,
}

/// What a fraction is to be multiplied with to compare it with another one.
spec fn weight(f: Fraction, g: Fraction) -> nat {
    if f.e >= g.e {
        pow2((f.e - g.e) as nat)
    } else {
        1
    }
}

proof fn lemma_fraction(r: nat, s: nat) -> (f: Fraction)
    requires
        0 < r < LIMIT,
        0 < s <= u32::MAX,
    ensures
        LEAST * f.d <= f.n,
        f.n < LIMIT * f.d,
        f.d > 0,
        -120 <= f.e <= 120,
        f.n * s * pow2((f.e + 200) as nat) == r * f.d * pow2(200),
        binary64::quotient(binary64::of_nat(r), binary64::of_nat(s)) == binary64::settled(
            binary64::nearest(f.n, f.d),
            f.e,
        ),
{
    binary64::lemma_value_of_word(r);
    binary64::lemma_value_of_word(s);
    binary64::lemma_held_is_close(r);
    binary64::lemma_held_is_close(s);
    let a = binary64::of_nat(r);
    let b = binary64::of_nat(s);
    let m1 = a->m as nat;
    let m2 = b->m as nat;
    let e1 = a->e as int;
    let e2 = b->e as int;
    lemma2_to64();
    lemma2_to64_rest();
    let (one, c): (nat, int) = if m1 >= m2 {
        (LEAST as nat, 52)
    } else {
        (LIMIT as nat, 53)
    };
    assert(pow2(c as nat) == one);
    let f = Fraction { n: m1 * one, d: m2, e: e1 - e2 - c };
    assert(LEAST * m2 <= m1 * one && m1 * one < LIMIT * m2) by (nonlinear_arith)
        requires
            LEAST <= m1 < LIMIT,
            LEAST <= m2 < LIMIT,
            LIMIT == 2 * LEAST,
            (m1 >= m2 && one == LEAST) || (m1 < m2 && one == LIMIT),
    ;
    // Both sides are `m1 * m2` times the same power of two.
    let x = pow2((e1 + 52) as nat);
    let y = pow2((e2 + 52) as nat);
    let g = pow2(52);
    let w = pow2((f.e + 200) as nat);
    let big = pow2(200);
    lemma_pow2_adds((f.e + 200) as nat, c as nat);
    lemma_pow2_adds((f.e + 200 + c) as nat, (e2 + 52) as nat);
    lemma_pow2_adds((e1 + 52) as nat, 200);
    assert(w * one * y == x * big) by {
        assert(w * one == pow2((f.e + 200 + c) as nat));
        assert((f.e + 200 + c) + (e2 + 52) == (e1 + 52) + 200);
    }
    lemma_pow2_pos(52);
    let k = m1 * one * w;
    assert(m1 * one * s * w * g == k * (s * g)) by (nonlinear_arith)
        requires
            k == m1 * one * w,
    ;
    lemma_times(k, s * g, m2 * y);
    assert(k * (m2 * y) == (m1 * m2) * (w * one * y)) by (nonlinear_arith)
        requires
            k == m1 * one * w,
    ;
    lemma_times(m1 * m2, w * one * y, x * big);
    assert((m1 * m2) * (x * big) == (m2 * big) * (m1 * x)) by (nonlinear_arith);
    lemma_times(m2 * big, m1 * x, r * g);
    assert((m2 * big) * (r * g) == r * m2 * big * g) by (nonlinear_arith);
    assert(m1 * one * s * w == r * m2 * big) by (nonlinear_arith)
        requires
            m1 * one * s * w * g == r * m2 * big * g,
            g > 0,
    ;
    f
}

proof fn lemma_times(k: nat, a: nat, b: nat)
    requires
        a == b,
    ensures
        k * a == k * b,
{
}

proof fn lemma_regrouped(n: nat, d: nat, w: nat, x: nat, s: nat, q: nat, z: nat)
    ensures
        (n * d * w * x) * (s * q * z) == (d * x * q) * (n * s * (w * z)),
{
    let a = n * d;
    let b = w * x;
    assert(n * d * w * x == a * b) by (nonlinear_arith)
        requires
            a == n * d,
            b == w * x,
    ;
    assert((a * b) * (s * q * z) == (a * s) * (b * z) * q) by (nonlinear_arith);
    assert(a * s == d * (n * s)) by (nonlinear_arith)
        requires
            a == n * d,
    ;
    assert(b * z == x * (w * z)) by (nonlinear_arith)
        requires
            b == w * x,
    ;
    let c = n * s;
    let e = w * z;
    assert((d * c) * (x * e) * q == (d * x * q) * (c * e)) by (nonlinear_arith);
}

/// Fractions compare like what they stand for.
proof fn lemma_cross(f: Fraction, g: Fraction, r: nat, s: nat, p: nat, q: nat, x: nat, y: nat)
    requires
        f.d > 0,
        g.d > 0,
        s > 0,
        q > 0,
        -120 <= f.e <= 120,
        -120 <= g.e <= 120,
        f.n * s * pow2((f.e + 200) as nat) == r * f.d * pow2(200),
        g.n * q * pow2((g.e + 200) as nat) == p * g.d * pow2(200),
        r * q * x <= p * s * y,
    ensures
        f.n * g.d * weight(f, g) * x <= g.n * f.d * weight(g, f) * y,
{
    let u = pow2((f.e + 200) as nat);
    let v = pow2((g.e + 200) as nat);
    let b = pow2(200);
    lemma_pow2_pos(200);
    lemma_pow2_pos((f.e + 200) as nat);
    lemma_pow2_pos((g.e + 200) as nat);
    let least: int = if f.e <= g.e {
        f.e
    } else {
        g.e
    };
    let z = pow2((least + 200) as nat);
    lemma_pow2_pos((least + 200) as nat);
    let wf = weight(f, g);
    let wg = weight(g, f);
    lemma2_to64();
    if f.e >= g.e {
        lemma_pow2_adds((f.e - g.e) as nat, (g.e + 200) as nat);
    }
    if g.e >= f.e {
        lemma_pow2_adds((g.e - f.e) as nat, (f.e + 200) as nat);
    }
    assert(u == wf * z && v == wg * z);
    let fnn = f.n;
    let fd = f.d;
    let gn = g.n;
    let gd = g.d;
    // Multiplied by `s * q * z * b`, both sides are those of the premise.
    lemma_regrouped(fnn, gd, wf, x, s, q, z);
    lemma_times(gd * x * q, fnn * s * u, r * fd * b);
    assert((gd * x * q) * (r * fd * b) == (r * q * x) * (fd * gd * b)) by (nonlinear_arith);
    lemma_regrouped(gn, fd, wg, y, q, s, z);
    lemma_times(fd * y * s, gn * q * v, p * gd * b);
    assert((fd * y * s) * (p * gd * b) == (p * s * y) * (fd * gd * b)) by (nonlinear_arith);
    assert(q * s * z == s * q * z) by (nonlinear_arith);
    let k = fd * gd * b;
    let m = s * q * z;
    assert((r * q * x) * k <= (p * s * y) * k) by (nonlinear_arith)
        requires
            r * q * x <= p * s * y,
            k >= 0,
    ;
    assert(m > 0) by (nonlinear_arith)
        requires
            m == s * q * z,
            s > 0,
            q > 0,
            z > 0,
    ;
    let left = fnn * gd * wf * x;
    let right = gn * fd * wg * y;
    assert(left <= right) by (nonlinear_arith)
        requires
            left * m <= right * m,
            m > 0,
    ;
}

proof fn lemma_exponents_in_order(f: Fraction, g: Fraction)
    requires
        LEAST * f.d <= f.n,
        g.n < LIMIT * g.d,
        f.d > 0,
        g.d > 0,
        f.n * g.d * weight(f, g) <= g.n * f.d * weight(g, f),
    ensures
        f.e <= g.e,
{
    if f.e > g.e {
        let w = pow2((f.e - g.e) as nat);
        lemma_pow2_unfold((f.e - g.e) as nat);
        lemma_pow2_pos((f.e - g.e - 1) as nat);
        assert(w >= 2);
        let fnn = f.n;
        let fd = f.d;
        let gn = g.n;
        let gd = g.d;
        let k = fd * gd;
        assert(k > 0) by (nonlinear_arith)
            requires
                k == fd * gd,
                fd > 0,
                gd > 0,
        ;
        assert(fnn * gd * w >= LIMIT * k) by (nonlinear_arith)
            requires
                LEAST * fd <= fnn,
                w >= 2,
                k == fd * gd,
                gd > 0,
                LIMIT == 2 * LEAST,
                fd > 0,
        ;
        assert(gn * fd * 1 < LIMIT * k) by (nonlinear_arith)
            requires
                gn < LIMIT * gd,
                k == fd * gd,
                fd > 0,
        ;
    }
}

proof fn lemma_nearest_across(n: nat, d: nat, p: nat, q: nat)
    requires
        d > 0,
        q > 0,
        n * q <= p * d,
    ensures
        binary64::nearest(n, d) <= binary64::nearest(p, q),
{
    lemma_nearest_scaled(n, d, q);
    lemma_nearest_scaled(p, q, d);
    assert(d * q == q * d) by (nonlinear_arith);
    assert(d * q > 0) by (nonlinear_arith)
        requires
            d > 0,
            q > 0,
    ;
    binary64::lemma_nearest_in_order(n * q, p * d, d * q);
}

proof fn lemma_in_range(f: Fraction)
    requires
        LEAST * f.d <= f.n,
        f.n < LIMIT * f.d,
        f.d > 0,
    ensures
        LEAST <= binary64::nearest(f.n, f.d) <= LIMIT,
{
    binary64::lemma_nearest_bounds(f.n, f.d, LEAST as nat, LIMIT as nat);
}

proof fn lemma_once(n: nat, d: nat, p: nat, q: nat)
    requires
        n * q * 1 * 1 <= p * d * 1 * 1,
    ensures
        n * q <= p * d,
{
    let x = n * q;
    let y = p * d;
    assert(x * 1 * 1 == x);
    assert(y * 1 * 1 == y);
}

/// A target that gives back at least as much for each second, in exact arithmetic, never
/// ranks behind.
#[verifier::spinoff_prover]
pub proof fn better_rates_rank_no_worse(a: TargetView, b: TargetView)
    requires
        freed(a) < LIMIT,
        freed(b) < LIMIT,
        freed(a) * time(b) <= freed(b) * time(a),
    ensures
        a.efficiency().bits() <= b.efficiency().bits(),
{
    a.lemma_efficiency_is_valid();
    b.lemma_efficiency_is_valid();
    let r = freed(a) as nat;
    let p = freed(b) as nat;
    let s = time(a) as nat;
    let q = time(b) as nat;
    binary64::words_can_be_held(r);
    if r > 0 {
        assert(p > 0) by (nonlinear_arith)
            requires
                r * q <= p * s,
                r > 0,
                q > 0,
                p >= 0,
        ;
        let f = lemma_fraction(r, s);
        let g = lemma_fraction(p, q);
        assert(r * q * 1 <= p * s * 1);
        lemma_cross(f, g, r, s, p, q, 1, 1);
        lemma_exponents_in_order(f, g);
        lemma_in_range(f);
        lemma_in_range(g);
        if f.e == g.e {
            lemma2_to64();
            assert(weight(f, g) == 1 && weight(g, f) == 1);
            lemma_once(f.n, f.d, g.n, g.d);
            lemma_nearest_across(f.n, f.d, g.n, g.d);
        }
        binary64::lemma_settled_in_order(
            binary64::nearest(f.n, f.d),
            f.e,
            binary64::nearest(g.n, g.d),
            g.e,
        );
        binary64::bits_are_in_order(a.efficiency(), b.efficiency());
    }
}

proof fn lemma_apart_alike(n: nat, d: nat, p: nat, q: nat, x: nat, y: nat)
    requires
        d > 0,
        q > 0,
        LEAST * d <= n,
        n * q * (LEAST + 2) <= p * d * LEAST,
        2 * (x * d - n) <= d,
        2 * (p - y * q) <= q,
    ensures
        x < y,
{
    if y <= x {
        let k = d * q;
        assert(k > 0) by (nonlinear_arith)
            requires
                k == d * q,
                d > 0,
                q > 0,
        ;
        assert(2 * (x * k) <= 2 * (n * q) + k) by (nonlinear_arith)
            requires
                2 * (x * d - n) <= d,
                k == d * q,
                q > 0,
        ;
        assert(2 * (p * d) <= 2 * (y * k) + k) by (nonlinear_arith)
            requires
                2 * (p - y * q) <= q,
                k == d * q,
                d > 0,
        ;
        assert(y * k <= x * k) by (nonlinear_arith)
            requires
                y <= x,
                k > 0,
        ;
        let nq = n * q;
        let pd = p * d;
        assert(nq >= LEAST * k) by (nonlinear_arith)
            requires
                nq == n * q,
                LEAST * d <= n,
                k == d * q,
                q > 0,
        ;
        assert(nq * (LEAST + 2) == nq * LEAST + 2 * nq) by (nonlinear_arith);
        assert(pd * LEAST <= (nq + k) * LEAST) by (nonlinear_arith)
            requires
                pd <= nq + k,
        ;
        assert((nq + k) * LEAST == nq * LEAST + LEAST * k) by (nonlinear_arith);
    }
}

proof fn lemma_apart_across(n: nat, d: nat, p: nat, q: nat)
    requires
        d > 0,
        q > 0,
        n * q * (LEAST + 2) <= 2 * (p * d) * LEAST,
        2 * (LIMIT * d - n) <= d,
    ensures
        2 * (p - LEAST * q) > q,
{
    if 2 * (p - LEAST * q) <= q {
        let k = d * q;
        assert(k > 0) by (nonlinear_arith)
            requires
                k == d * q,
                d > 0,
                q > 0,
        ;
        let nq = n * q;
        let pd = p * d;
        assert(2 * nq >= 2 * (LIMIT * k) - k) by (nonlinear_arith)
            requires
                2 * (LIMIT * d - n) <= d,
                nq == n * q,
                k == d * q,
                q > 0,
        ;
        assert(2 * pd <= 2 * (LEAST * k) + k) by (nonlinear_arith)
            requires
                2 * (p - LEAST * q) <= q,
                pd == p * d,
                k == d * q,
                d > 0,
        ;
        let lk = LEAST * k;
        assert(LIMIT * k == 2 * lk) by (nonlinear_arith)
            requires
                lk == LEAST * k,
                LIMIT == 2 * LEAST,
        ;
        assert(2 * nq * (LEAST + 2) >= (4 * lk - k) * (LEAST + 2)) by (nonlinear_arith)
            requires
                2 * nq >= 4 * lk - k,
        ;
        assert(2 * pd * LEAST <= (2 * lk + k) * LEAST) by (nonlinear_arith)
            requires
                2 * pd <= 2 * lk + k,
        ;
        assert((4 * lk - k) * (LEAST + 2) == 4 * (lk * LEAST) + 8 * lk - lk - 2 * k)
            by (nonlinear_arith)
            requires
                lk == LEAST * k,
        ;
        assert((2 * lk + k) * LEAST == 2 * (lk * LEAST) + lk) by (nonlinear_arith)
            requires
                lk == LEAST * k,
        ;
        assert(2 * nq * (LEAST + 2) == 2 * (nq * (LEAST + 2))) by (nonlinear_arith);
        assert(2 * (p * d) * LEAST == 2 * pd * LEAST);
        assert(lk >= k) by (nonlinear_arith)
            requires
                lk == LEAST * k,
                LEAST >= 1,
                k > 0,
        ;
    }
}

/// A target that gives back more for each second, in exact arithmetic, ranks in front, as
/// long as it is more by one part in `2^51`.
#[verifier::spinoff_prover]
pub proof fn better_rates_rank_first(a: TargetView, b: TargetView)
    requires
        freed(a) < LIMIT,
        0 < freed(b) < LIMIT,
        freed(a) * time(b) * (LEAST + 2) <= freed(b) * time(a) * LEAST,
    ensures
        a.efficiency().bits() < b.efficiency().bits(),
{
    a.lemma_efficiency_is_valid();
    b.lemma_efficiency_is_valid();
    let r = freed(a) as nat;
    let p = freed(b) as nat;
    let s = time(a) as nat;
    let q = time(b) as nat;
    binary64::words_can_be_held(r);
    let g = lemma_fraction(p, q);
    lemma_in_range(g);
    if r > 0 {
        let f = lemma_fraction(r, s);
        lemma_in_range(f);
        let more = (LEAST + 2) as nat;
        let least = LEAST as nat;
        lemma_cross(f, g, r, s, p, q, more, least);
        assert(r * q <= p * s) by (nonlinear_arith)
            requires
                r * q * (LEAST + 2) <= p * s * LEAST,
                r >= 0,
                q >= 0,
                p >= 0,
                s >= 0,
        ;
        lemma_cross(f, g, r, s, p, q, 1, 1);
        lemma_exponents_in_order(f, g);
        let x = binary64::nearest(f.n, f.d);
        let y = binary64::nearest(g.n, g.d);
        lemma_half_a_step(f.n, f.d);
        lemma_half_a_step(g.n, g.d);
        lemma2_to64();
        if f.e == g.e {
            assert(weight(f, g) == 1 && weight(g, f) == 1);
            let nq = f.n * g.d;
            let pd = g.n * f.d;
            assert(nq * 1 * more == nq * more && pd * 1 * least == pd * least) by (nonlinear_arith);
            lemma_apart_alike(f.n, f.d, g.n, g.d, x, y);
        } else if f.e + 1 == g.e && x == LIMIT && y == LEAST {
            let w = weight(g, f);
            assert(w == 2);
            assert(weight(f, g) == 1);
            let nq = f.n * g.d;
            let pd = g.n * f.d;
            assert(nq * 1 * more == nq * more && pd * 2 * least == 2 * pd * least)
                by (nonlinear_arith);
            lemma_apart_across(f.n, f.d, g.n, g.d);
        }
        let u = a.efficiency();
        let v = b.efficiency();
        assert(u == binary64::settled(x, f.e) && v == binary64::settled(y, g.e));
        assert(!binary64::at_most(v, u));
        binary64::bits_are_in_order(v, u);
    } else {
        assert(a.efficiency() is Zero);
        binary64::bits_are_in_order(b.efficiency(), a.efficiency());
    }
}

} // verus!
