//! Percentages with one decimal, as double precision gives them.
//!
//! A share is the nearest number of 53 binary digits, its percentage is the nearest again, and the
//! decimal written is the nearest to that. Whole numbers say all of this exactly.
use crate::strings::{dec, wide_decimal};
use vstd::prelude::*;
use vstd::string::*;

verus! {

/// The least whole number of 53 binary digits.
pub const LEAST: u128 = 0x10_0000_0000_0000;

/// The least whole number of 54 binary digits.
pub const OVER: u128 = 0x20_0000_0000_0000;

/// A power of two.
pub open spec fn twos(n: nat) -> nat
    decreases n,
{
    if n == 0 {
        1
    } else {
        2 * twos((n - 1) as nat)
    }
}

/// The whole number nearest to a quotient, ties to the even one.
pub open spec fn nearest(x: nat, y: nat) -> nat {
    let q = x / y;
    let r = x % y;
    if 2 * r > y || 2 * r == y && q % 2 == 1 {
        q + 1
    } else {
        q
    }
}

/// The numerator of a number over a power of two.
pub open spec fn over_power(a: nat, e: int) -> nat {
    if e < 0 {
        a * twos((-e) as nat)
    } else {
        a
    }
}

/// The denominator of a number over a power of two.
pub open spec fn under_power(b: nat, e: int) -> nat {
    if e > 0 {
        b * twos(e as nat)
    } else {
        b
    }
}

/// Whether a quotient over a power of two has 53 binary digits before its point.
pub open spec fn normal(a: nat, b: nat, e: int) -> bool {
    LEAST * under_power(b, e) <= over_power(a, e) < OVER * under_power(b, e)
}

/// The exponent at which a quotient has 53 binary digits before its point.
pub open spec fn exponent(a: nat, b: nat) -> int {
    choose|e: int| normal(a, b, e)
}

/// The digits of the nearest number of 53 binary digits to a quotient.
pub open spec fn digits(a: nat, b: nat) -> nat {
    nearest(over_power(a, exponent(a, b)), under_power(b, exponent(a, b)))
}

/// A whole number in double precision.
pub open spec fn whole(n: nat) -> nat {
    if n < OVER {
        n
    } else {
        digits(n, 1) * twos(exponent(n, 1) as nat)
    }
}

/// The tenths nearest to a hundred times a number of 53 binary digits, itself taken to 53 binary
/// digits.
pub open spec fn tenths(m: nat, e: int) -> nat {
    let p = digits(100 * m, 1);
    let f = exponent(100 * m, 1) + e;
    if f >= 0 {
        10 * p * twos(f as nat)
    } else {
        nearest(10 * p, twos((-f) as nat))
    }
}

/// A share in tenths of a percent; the whole where there is nothing.
pub open spec fn permille(n: nat, d: nat) -> nat {
    if d == 0 {
        1000
    } else if n == 0 {
        0
    } else {
        tenths(digits(whole(n), whole(d)), exponent(whole(n), whole(d)))
    }
}

/// A share as a percentage with one decimal.
pub open spec fn percent_text(n: nat, d: nat) -> Seq<char> {
    dec(permille(n, d) / 10) + "."@ + dec(permille(n, d) % 10)
}

/// What has too few digits at an exponent has too few at every larger one.
proof fn lemma_below(a: nat, b: nat, e: int, f: int)
    requires
        over_power(a, e) < OVER * under_power(b, e),
        e < f,
    ensures
        over_power(a, f) < LEAST * under_power(b, f),
    decreases f - e,
{
    let up = over_power(a, e);
    let down = under_power(b, e);
    if e < 0 {
        let t = twos((-e - 1) as nat);
        assert(twos((-e) as nat) == 2 * t);
        assert(a * (2 * t) == 2 * (a * t)) by (nonlinear_arith);
        if e == -1 {
            assert(t == 1);
            assert(a * t == a) by (nonlinear_arith)
                requires
                    t == 1,
            ;
        }
        assert(up == 2 * over_power(a, e + 1));
        assert(under_power(b, e + 1) == down);
    } else {
        let t = twos(e as nat);
        assert(twos((e + 1) as nat) == 2 * t);
        assert(b * (2 * t) == 2 * (b * t)) by (nonlinear_arith);
        if e == 0 {
            assert(b * t == b) by (nonlinear_arith)
                requires
                    t == 1,
            ;
        }
        assert(over_power(a, e + 1) == up);
        assert(under_power(b, e + 1) == 2 * down);
    }
    assert(over_power(a, e + 1) < LEAST * under_power(b, e + 1));
    if e + 1 < f {
        lemma_below(a, b, e + 1, f);
    }
}

/// There is one exponent at which a quotient has its digits.
pub proof fn lemma_exponent(a: nat, b: nat, e: int)
    requires
        normal(a, b, e),
    ensures
        exponent(a, b) == e,
{
    let f = exponent(a, b);
    assert(normal(a, b, f));
    if e < f {
        lemma_below(a, b, e, f);
    } else if f < e {
        lemma_below(a, b, f, e);
    }
}

/// Powers of two grow.
pub proof fn lemma_twos(a: nat, b: nat)
    requires
        a <= b,
    ensures
        1 <= twos(a) <= twos(b),
    decreases b,
{
    if a < b {
        lemma_twos(a, (b - 1) as nat);
    } else if a > 0 {
        lemma_twos((a - 1) as nat, (a - 1) as nat);
    }
}

fn nearest_whole(x: u128, y: u128) -> (q: u128)
    requires
        0 < y <= 0x4000_0000_0000_0000_0000_0000_0000_0000,
        x < 0x4000_0000_0000_0000_0000_0000_0000_0000,
    ensures
        q == nearest(x as nat, y as nat),
{
    let q = x / y;
    let r = x % y;
    assert(q <= x) by (nonlinear_arith)
        requires
            q == x / y,
            y > 0,
    ;
    if 2 * r > y || (2 * r == y && q % 2 == 1) {
        q + 1
    } else {
        q
    }
}

/// The digits and the exponent of a quotient.
fn rounded(a: u128, b: u128) -> (r: (u128, i32))
    requires
        0 < a <= 0x1_0000_0000_0000_0000,
        0 < b <= 0x1_0000_0000_0000_0000,
    ensures
        r.0 == digits(a as nat, b as nat),
        r.1 == exponent(a as nat, b as nat),
        LEAST <= r.0 <= OVER,
        r.1 >= 0 ==> LEAST * twos(r.1 as nat) <= a,
        r.1 < 0 ==> twos((-r.1) as nat) < OVER * b && a < LEAST * b,
{
    let mut x: u128 = a;
    let mut y: u128 = b;
    let mut e: i32 = 0;
    assert(a * twos(0) == a && b * twos(0) == b) by {
        assert(twos(0) == 1);
        assert(a * 1 == a);
        assert(b * 1 == b);
    }
    while x < LEAST * y
        invariant
            y == b,
            0 < b <= 0x1_0000_0000_0000_0000,
            0 < a <= x,
            -200 <= e <= 0,
            x == over_power(a as nat, e as int),
            x == a * twos((-e) as nat),
            e < 0 ==> x < OVER * y,
            e == 0 ==> x == a,
            twos((-e) as nat) <= x,
            -e <= 130,
            e < 0 ==> a < LEAST * b,
        decreases OVER * y - x,
    {
        proof {
            let k = (-e) as nat;
            assert(twos(k + 1) == 2 * twos(k));
            assert(a * (2 * twos(k)) == 2 * (a * twos(k))) by (nonlinear_arith);
            lemma_count(k);
        }
        x = 2 * x;
        e = e - 1;
    }
    while x >= OVER * y
        invariant
            e < 0 ==> x < OVER * y,
            e >= 0 ==> x == a,
            e < 0 ==> y == b,
            0 < a <= 0x1_0000_0000_0000_0000,
            0 < b <= y,
            x == over_power(a as nat, e as int),
            y == under_power(b as nat, e as int),
            e >= 0 ==> y == b * twos(e as nat),
            e <= 130,
            x >= LEAST * y,
            e >= 0 ==> twos(e as nat) <= y,
            y <= 0x1_0000_0000_0000_0000,
            e < 0 ==> twos((-e) as nat) <= x,
            e < 0 ==> b <= 0x1_0000_0000_0000_0000,
            e < 0 ==> a < LEAST * b,
            -130 <= e,
        decreases x - y,
    {
        proof {
            let k = e as nat;
            assert(twos(k + 1) == 2 * twos(k));
            assert(b * (2 * twos(k)) == 2 * (b * twos(k))) by (nonlinear_arith);
            lemma_count(k);
        }
        y = 2 * y;
        e = e + 1;
    }
    proof {
        lemma_exponent(a as nat, b as nat, e as int);
        if e >= 0 {
            let t = twos(e as nat);
            assert(LEAST * (b * t) >= LEAST * t) by (nonlinear_arith)
                requires
                    b >= 1,
            ;
        }
    }
    let m = nearest_whole(x, y);
    proof {
        lemma_quotient(x as nat, y as nat);
    }
    (m, e)
}

/// A power of two that fits has few steps.
proof fn lemma_count(k: nat)
    ensures
        k >= 128 ==> twos(k) > u128::MAX,
{
    if k >= 128 {
        lemma_twos(128, k);
        reveal_with_fuel(twos, 65);
        assert(twos(64) == 0x1_0000_0000_0000_0000);
        lemma_twos_sum(64, 64);
    }
}

/// Powers of two multiply.
pub proof fn lemma_twos_sum(a: nat, b: nat)
    ensures
        twos(a + b) == twos(a) * twos(b),
    decreases b,
{
    if b > 0 {
        lemma_twos_sum(a, (b - 1) as nat);
        let (s, t) = (twos(a), twos((b - 1) as nat));
        assert(s * (2 * t) == 2 * (s * t)) by (nonlinear_arith);
    } else {
        assert(twos(a) * 1 == twos(a));
    }
}

proof fn lemma_quotient(x: nat, y: nat)
    requires
        y > 0,
        LEAST * y <= x < OVER * y,
    ensures
        LEAST <= nearest(x, y) <= OVER,
{
    let q = x / y;
    assert(LEAST <= q < OVER) by (nonlinear_arith)
        requires
            y > 0,
            LEAST * y <= x < OVER * y,
            q == x / y,
    ;
}

/// A whole number in double precision.
fn whole_value(n: u64) -> (w: u128)
    ensures
        w == whole(n as nat),
        w <= 0x1_0000_0000_0000_0000,
        n > 0 ==> w > 0,
{
    if (n as u128) < OVER {
        return n as u128;
    }
    let (m, e) = rounded(n as u128, 1);
    proof {
        if e < 0 {
            lemma_twos(1, (-e) as nat);
            assert(n * twos((-e) as nat) >= 2 * n) by (nonlinear_arith)
                requires
                    twos((-e) as nat) >= 2,
            ;
        }
        reveal_with_fuel(twos, 13);
        if e >= 12 {
            lemma_twos(12, e as nat);
        }
        lemma_twos(e as nat, 11);
    }
    let mut w: u128 = m;
    let mut i: i32 = 0;
    assert(m * twos(0) == m) by {
        assert(m * 1 == m);
    }
    while i < e
        invariant
            0 <= i <= e,
            w == m * twos(i as nat),
            m <= OVER,
            LEAST <= m <= w,
            i > 0 ==> w <= OVER * 0x800,
            twos(e as nat) <= 0x800,
        decreases e - i,
    {
        proof {
            let t = twos(i as nat);
            lemma_twos((i + 1) as nat, e as nat);
            assert(m * (2 * t) == 2 * (m * t)) by (nonlinear_arith);
            assert(m * (2 * t) <= OVER * 0x800) by (nonlinear_arith)
                requires
                    m <= OVER,
                    2 * t <= 0x800,
            ;
        }
        w = 2 * w;
        i = i + 1;
    }
    w
}

proof fn lemma_small(k: nat)
    ensures
        k <= 24 ==> 1 <= twos(k) <= 0x100_0000,
        k >= 13 ==> twos(k) >= 0x2000,
        k >= 12 ==> twos(k) >= 0x1000,
        k >= 1 ==> twos(k) >= 2,
{
    assert(twos(24) == 0x100_0000 && twos(13) == 0x2000 && twos(12) == 0x1000 && twos(1) == 2) by {
        reveal_with_fuel(twos, 25);
    }
    if k <= 24 {
        lemma_twos(k, 24);
    }
    if k >= 13 {
        lemma_twos(13, k);
    }
    if k >= 12 {
        lemma_twos(12, k);
    }
    if k >= 1 {
        lemma_twos(1, k);
    }
}

/// A number times a power of two.
fn times_power(x: u128, g: i32) -> (t: u128)
    requires
        0 <= g <= 24,
        x <= 10 * OVER,
    ensures
        t == x * twos(g as nat),
        t <= 10 * OVER * 0x100_0000,
{
    let mut t: u128 = x;
    let mut i: i32 = 0;
    assert(x * twos(0) == x) by {
        assert(x * 1 == x);
    }
    while i < g
        invariant
            0 <= i <= g <= 24,
            t == x * twos(i as nat),
            x <= 10 * OVER,
            t <= 10 * OVER * 0x100_0000,
        decreases g - i,
    {
        proof {
            let u = twos(i as nat);
            lemma_small((i + 1) as nat);
            assert(x * (2 * u) == 2 * (x * u)) by (nonlinear_arith);
            assert(x * (2 * u) <= 10 * OVER * 0x100_0000) by (nonlinear_arith)
                requires
                    x <= 10 * OVER,
                    2 * u <= 0x100_0000,
            ;
        }
        t = 2 * t;
        i = i + 1;
    }
    t
}

/// A power of two.
fn power(k: i32) -> (y: u128)
    requires
        0 <= k,
        twos(k as nat) <= 0x4000_0000_0000_0000_0000_0000_0000_0000,
    ensures
        y == twos(k as nat),
        y > 0,
{
    let mut y: u128 = 1;
    let mut i: i32 = 0;
    while i < k
        invariant
            0 <= i <= k,
            y == twos(i as nat),
            y > 0,
            twos(k as nat) <= 0x4000_0000_0000_0000_0000_0000_0000_0000,
        decreases k - i,
    {
        proof {
            lemma_twos((i + 1) as nat, k as nat);
        }
        y = 2 * y;
        i = i + 1;
    }
    y
}

/// A share in tenths of a percent.
fn permille_value(n: u64, d: u64) -> (t: u128)
    ensures
        t == permille(n as nat, d as nat),
{
    if d == 0 {
        return 1000;
    }
    if n == 0 {
        return 0;
    }
    let w = whole_value(n);
    let v = whole_value(d);
    let (m, e) = rounded(w, v);
    let (p, f) = rounded(100 * m, 1);
    proof {
        // A hundred times the digits has more than 53 binary digits itself.
        if f < 0 {
            lemma_small((-f) as nat);
        } else {
            lemma_small(f as nat);
        }
        if e >= 0 {
            lemma_small(e as nat);
        } else {
            lemma_count((-e) as nat);
        }
    }
    assert(0 <= f < 12);
    assert(-128 <= e < 13);
    let g: i32 = f + e;
    if g >= 0 {
        times_power(10 * p, g)
    } else {
        proof {
            lemma_twos((-g) as nat, (-e) as nat);
        }
        nearest_whole(10 * p, power(-g))
    }
}

/// Writes a share as a percentage with one decimal.
pub fn percent(n: u64, d: u64) -> (s: String)
    ensures
        s@ == percent_text(n as nat, d as nat),
{
    let t = permille_value(n, d);
    let mut s = wide_decimal(t / 10);
    s.append(".");
    s.append(&wide_decimal(t % 10));
    s
}

} // verus!
