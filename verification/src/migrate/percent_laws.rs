//! What holds of percentages.
use crate::migrate::percent::{
    digits, exponent, lemma_exponent, lemma_twos, lemma_twos_sum, nearest, normal, over_power,
    permille, percent_text, tenths, twos, under_power,
};
use crate::strings::dec;
use vstd::prelude::*;

verus! {

/// The distance between two numbers.
pub open spec fn apart(a: int, b: int) -> int {
    if a < b {
        b - a
    } else {
        a - b
    }
}

/// The nearest whole number to a quotient is at most half away from it.
pub proof fn law_nearest(x: nat, y: nat)
    requires
        y > 0,
    ensures
        2 * apart((nearest(x, y) * y) as int, x as int) <= y,
{
    let q = x / y;
    let r = x % y;
    assert(x == q * y + r && 0 <= r < y) by (nonlinear_arith)
        requires
            y > 0,
            q == x / y,
            r == x % y,
    ;
    assert((q + 1) * y == q * y + y) by (nonlinear_arith);
}

proof fn lemma_numbers()
    ensures
        twos(6) == 64,
        twos(7) == 128,
        twos(52) == 0x10_0000_0000_0000,
        twos(53) == 0x20_0000_0000_0000,
{
    reveal_with_fuel(twos, 54);
}

/// The exponent of a share that is no more than the whole.
proof fn lemma_share_exponent(n: nat, d: nat, k: nat)
    requires
        0 < n <= d,
        n * twos(k) < 0x10_0000_0000_0000 * d,
    ensures
        exists|e: nat| #![trigger twos(e)] e >= k && normal(n, d, -(e as int)) && (k >= 52 ==> e >= 52),
    decreases 0x10_0000_0000_0000 * d - n * twos(k),
{
    let t = twos(k);
    lemma_twos(k, k);
    assert(twos(k + 1) == 2 * t);
    assert(n * (2 * t) == 2 * (n * t)) by (nonlinear_arith);
    assert(n * t >= 1) by (nonlinear_arith)
        requires
            n >= 1,
            t >= 1,
    ;
    if 2 * (n * t) < 0x10_0000_0000_0000 * d {
        lemma_share_exponent(n, d, k + 1);
        let e = choose|e: nat|
            #![trigger twos(e)]
            e >= k + 1 && normal(n, d, -(e as int)) && (k + 1 >= 52 ==> e >= 52);
        assert(twos(e) >= 0);
    } else {
        let e = k + 1;
        assert(over_power(n, -(e as int)) == n * twos(e));
        assert(under_power(d, -(e as int)) == d);
        assert(normal(n, d, -(e as int)));
    }
}

/// The tenths of a number of 53 binary digits, to within what rounding takes.
#[verifier::rlimit(40)]
proof fn lemma_tenths(m: nat, k: nat)
    requires
        0x10_0000_0000_0000 <= m <= 0x20_0000_0000_0000,
        k >= 52,
    ensures
        2 * apart((tenths(m, -(k as int)) * twos(k)) as int, (1000 * m) as int) <= twos(k) + 1280,
{
    lemma_numbers();
    let a: nat = 100 * m;
    let e: nat = if a < 0x20_0000_0000_0000 * 64 {
        6
    } else {
        7
    };
    let u = twos(e);
    assert(over_power(a, e as int) == a);
    assert(under_power(1, e as int) == u) by {
        assert(1 * u == u);
    }
    assert(normal(a, 1, e as int));
    lemma_exponent(a, 1, e as int);
    let p = digits(a, 1);
    assert(p == nearest(a, u));
    law_nearest(a, u);
    let g: nat = (k - e) as nat;
    let v = twos(g);
    lemma_twos(0, g);
    lemma_twos_sum(g, e);
    assert(twos(k) == v * u);
    let t = nearest(10 * p, v);
    law_nearest(10 * p, v);
    assert(exponent(a, 1) + -(k as int) == -(g as int));
    assert(tenths(m, -(k as int)) == t);
    let x = t * v;
    assert(t * (v * u) == x * u) by (nonlinear_arith)
        requires
            x == t * v,
    ;
    let y: int = apart(x as int, (10 * p) as int);
    assert(2 * y <= v);
    assert(apart((x * u) as int, ((10 * p) * u) as int) == y * u) by {
        assert(x * u - (10 * p) * u == (x - 10 * p) * u) by (nonlinear_arith);
        assert((10 * p) * u - x * u == (10 * p - x) * u) by (nonlinear_arith);
        assert(x < 10 * p ==> x * u <= (10 * p) * u) by (nonlinear_arith);
        assert(x >= 10 * p ==> x * u >= (10 * p) * u) by (nonlinear_arith);
    }
    assert(2 * (y * u) <= v * u) by (nonlinear_arith)
        requires
            2 * y <= v,
    ;
    assert((10 * p) * u == 10 * (p * u)) by (nonlinear_arith);
    assert(2 * apart((p * u) as int, a as int) <= 128);
}

/// A part of a whole is written as the tenth of a percent nearest to it, to within the precision of
/// its arithmetic: the tenths are no further from a thousand parts than a half and a trillionth.
/// Nothing of something is no percent, and all of nothing is the whole.
#[verifier::rlimit(40)]
pub proof fn law_percentages(n: nat, d: nat)
    requires
        n <= d < 0x20_0000_0000_0000,
    ensures
        d == 0 ==> permille(n, d) == 1000,
        n == 0 && d > 0 ==> permille(n, d) == 0,
        d > 0 ==> 2 * apart((permille(n, d) * d) as int, (1000 * n) as int) * 1_000_000_000_000 <= d
            * 1_000_000_000_001,
        percent_text(n, d) == dec(permille(n, d) / 10) + seq!['.'] + dec(permille(n, d) % 10),
{
    reveal_strlit(".");
    assert("."@ =~= seq!['.']);
    if d > 0 && n > 0 {
        lemma_numbers();
        let t51 = twos(51);
        assert(twos(52) == 2 * t51);
        assert(n * t51 < 0x10_0000_0000_0000 * d) by (nonlinear_arith)
            requires
                0 < n <= d,
                0 < 2 * t51 <= 0x10_0000_0000_0000,
        ;
        lemma_share_exponent(n, d, 51);
        let k = choose|e: nat| #![trigger twos(e)] e >= 51 && normal(n, d, -(e as int));
        assert(twos(k) >= 0);
        lemma_exponent(n, d, -(k as int));
        let w = twos(k);
        if k < 52 {
            assert(k == 51);
            assert(false);
        }
        let a = n * w;
        assert(over_power(n, -(k as int)) == a && under_power(d, -(k as int)) == d);
        let m = digits(n, d);
        assert(m == nearest(a, d));
        law_nearest(a, d);
        assert(0x10_0000_0000_0000 <= m <= 0x20_0000_0000_0000) by (nonlinear_arith)
            requires
                d > 0,
                0x10_0000_0000_0000 * d <= a < 0x20_0000_0000_0000 * d,
                2 * apart((m * d) as int, a as int) <= d,
        ;
        lemma_tenths(m, k);
        let x = tenths(m, -(k as int));
        assert(x == permille(n, d));
        lemma_twos(52, k);
        lemma_scale(n, d, m, x, w);
    } else if d > 0 {
        assert(0 * d == 0);
    }
}

#[verifier::rlimit(40)]
proof fn lemma_scale(n: nat, d: nat, m: nat, x: nat, w: nat)
    requires
        d > 0,
        w >= 0x10_0000_0000_0000,
        2 * apart((m * d) as int, (n * w) as int) <= d,
        2 * apart((x * w) as int, (1000 * m) as int) <= w + 1280,
    ensures
        2 * apart((x * d) as int, (1000 * n) as int) * 1_000_000_000_000 <= d * 1_000_000_000_001,
{
    let y = apart((x * d) as int, (1000 * n) as int);
    assert((x * w) * d == (x * d) * w) by (nonlinear_arith);
    let s = (x * w) - 1000 * m;
    assert(s * d == (x * w) * d - 1000 * (m * d)) by (nonlinear_arith)
        requires
            s == (x * w) - 1000 * m,
    ;
    assert(2 * s * d <= (w + 1280) * d && -(2 * s * d) <= (w + 1280) * d) by (nonlinear_arith)
        requires
            2 * s <= w + 1280,
            -2 * s <= w + 1280,
            d > 0,
    ;
    assert((1000 * n) * w == 1000 * (n * w)) by (nonlinear_arith);
    let z = (x * d) * w - (1000 * n) * w;
    assert((w + 1280) * d == w * d + 1280 * d) by (nonlinear_arith);
    assert(2 * s * d == 2 * (s * d)) by (nonlinear_arith);
    assert(2 * z <= w * d + 2280 * d && -2 * z <= w * d + 2280 * d);
    assert(z == ((x * d) - 1000 * n) * w) by (nonlinear_arith)
        requires
            z == (x * d) * w - (1000 * n) * w,
    ;
    assert(2 * (y * w) <= w * d + 2280 * d) by {
        if x * d < 1000 * n {
            assert(-z == y * w) by (nonlinear_arith)
                requires
                    z == ((x * d) - 1000 * n) * w,
                    y == 1000 * n - x * d,
            ;
        } else {
            assert(z == y * w) by (nonlinear_arith)
                requires
                    z == ((x * d) - 1000 * n) * w,
                    y == x * d - 1000 * n,
            ;
        }
    }
    // The excess is less than a trillionth once it is divided by the power of two.
    let r = 2 * y * 1_000_000_000_000 - d * 1_000_000_000_001;
    if r > 0 {
        assert(r * w >= w) by (nonlinear_arith)
            requires
                r >= 1,
                w > 0,
        ;
        assert(r * w == 1_000_000_000_000 * (2 * (y * w)) - 1_000_000_000_001 * (w * d)) by (
            nonlinear_arith)
            requires
                r == 2 * y * 1_000_000_000_000 - d * 1_000_000_000_001,
        ;
        assert(w * d >= 0x10_0000_0000_0000 * d) by (nonlinear_arith)
            requires
                w >= 0x10_0000_0000_0000,
        ;
        assert(false);
    }
}

} // verus!
