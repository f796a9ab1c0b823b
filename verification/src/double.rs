//! Double-precision arithmetic on exact integers.
//!
//! A positive real is given as a fraction. Its double is the nearest number
//! with 53 significant bits, the even one of two that are equally near. The
//! exponent is not bounded here: every result is cut to 64 bits or below one,
//! where the bounds of a double's exponent make no difference.

use vstd::arithmetic::div_mod::lemma_fundamental_div_mod;
use vstd::arithmetic::div_mod::lemma_fundamental_div_mod_converse;
use vstd::arithmetic::power2::{lemma2_to64, lemma_pow2_unfold, pow2};
use vstd::prelude::*;

use crate::big::{side, Big, Side};

verus! {

/// The integer nearest to `n / d`, the even one of two.
pub open spec fn nearest_even(n: nat, d: nat) -> nat {
    let q = n / d;
    let twice = 2 * (n % d);
    if twice < d || (twice == d && q % 2 == 0) {
        q
    } else {
        q + 1
    }
}

/// The double of `n / d`, at least `2^52`, as a fraction.
pub open spec fn double_high(n: nat, d: nat) -> (nat, nat)
    decreases n - d,
{
    if d == 0 || n < 0x20_0000_0000_0000 * d {
        (nearest_even(n, d), 1)
    } else {
        let (a, b) = double_high(n, 2 * d);
        (2 * a, b)
    }
}

/// The double of `n / d`, below `2^53`, as a fraction.
pub open spec fn double_low(n: nat, d: nat) -> (nat, nat)
    decreases (if n < 0x10_0000_0000_0000 * d {
        0x10_0000_0000_0000 * d - n
    } else {
        0
    }),
{
    if n == 0 {
        (0, 1)
    } else if n >= 0x10_0000_0000_0000 * d {
        (nearest_even(n, d), 1)
    } else {
        let (a, b) = double_low(2 * n, d);
        (a, 2 * b)
    }
}

/// The double of `n / d` as a fraction.
pub open spec fn double(n: nat, d: nat) -> (nat, nat) {
    if n >= 0x10_0000_0000_0000 * d {
        double_high(n, d)
    } else {
        double_low(n, d)
    }
}

/// `n / d` as a whole 64-bit number: cut down, and capped.
pub open spec fn whole(n: nat, d: nat) -> u64 {
    if n / d <= u64::MAX {
        (n / d) as u64
    } else {
        u64::MAX
    }
}

/// The double of `n / d` times `factor`, in double precision, as a whole
/// number.
pub open spec fn product(n: nat, d: nat, factor: nat) -> u64 {
    let (a, b) = double(n, d);
    let (p, q) = double(a * factor, b);
    whole(p, q)
}

// --- bounds -----------------------------------------------------------------

proof fn lemma_nearest(n: nat, d: nat)
    requires
        d > 0,
        n >= d,
    ensures
        n <= 2 * (nearest_even(n, d) * d),
        nearest_even(n, d) * d <= 2 * n,
{
    let q = n / d;
    let m = nearest_even(n, d);
    lemma_fundamental_div_mod(n as int, d as int);
    assert(q >= 1) by (nonlinear_arith)
        requires
            q == n / d,
            n >= d,
            d > 0,
    ;
    assert(n == d * q + n % d && n % d < d);
    assert(n <= 2 * (m * d) && m * d <= 2 * n) by (nonlinear_arith)
        requires
            n == d * q + n % d,
            0 <= n % d < d,
            q >= 1,
            q <= m <= q + 1,
            d > 0,
    ;
}

proof fn lemma_high(n: nat, d: nat)
    requires
        d > 0,
        n >= 0x10_0000_0000_0000 * d,
    ensures
        double_high(n, d).1 > 0,
        n * double_high(n, d).1 <= 2 * (double_high(n, d).0 * d),
        double_high(n, d).0 * d <= 2 * (n * double_high(n, d).1),
    decreases n - d,
{
    if n < 0x20_0000_0000_0000 * d {
        lemma_nearest(n, d);
        assert(n * 1 == n) by (nonlinear_arith);
    } else {
        lemma_high(n, 2 * d);
        let (a, b) = double_high(n, 2 * d);
        assert((2 * a) * d == a * (2 * d)) by (nonlinear_arith);
    }
}

proof fn lemma_low(n: nat, d: nat)
    requires
        d > 0,
    ensures
        double_low(n, d).1 > 0,
        n * double_low(n, d).1 <= 2 * (double_low(n, d).0 * d),
        double_low(n, d).0 * d <= 2 * (n * double_low(n, d).1),
    decreases (if n < 0x10_0000_0000_0000 * d {
        0x10_0000_0000_0000 * d - n
    } else {
        0
    }),
{
    if n == 0 {
        assert(0 * d == 0) by (nonlinear_arith);
    } else if n >= 0x10_0000_0000_0000 * d {
        lemma_nearest(n, d);
        assert(n * 1 == n) by (nonlinear_arith);
    } else {
        lemma_low(2 * n, d);
        let (a, b) = double_low(2 * n, d);
        assert(n * (2 * b) == (2 * n) * b) by (nonlinear_arith);
    }
}

/// Rounding moves a value by less than a factor of two either way.
proof fn lemma_double(n: nat, d: nat)
    requires
        d > 0,
    ensures
        double(n, d).1 > 0,
        n * double(n, d).1 <= 2 * (double(n, d).0 * d),
        double(n, d).0 * d <= 2 * (n * double(n, d).1),
{
    if n >= 0x10_0000_0000_0000 * d {
        lemma_high(n, d);
    } else {
        lemma_low(n, d);
    }
}

/// A value far beyond 64 bits is capped.
pub proof fn lemma_product_huge(n: nat, d: nat, factor: nat)
    requires
        d > 0,
        n >= 0x4_0000_0000_0000_0000 * d,
        factor >= 1,
    ensures
        product(n, d, factor) == u64::MAX,
{
    let (a, b) = double(n, d);
    lemma_double(n, d);
    let (p, q) = double(a * factor, b);
    lemma_double(a * factor, b);
    assert(a >= 0x2_0000_0000_0000_0000 * b) by (nonlinear_arith)
        requires
            n * b <= 2 * (a * d),
            n >= 0x4_0000_0000_0000_0000 * d,
            d > 0,
            b > 0,
    ;
    assert(a * factor >= a) by (nonlinear_arith)
        requires
            factor >= 1,
            a >= 0,
    ;
    let t = a * factor;
    assert(p >= 0x1_0000_0000_0000_0000 * q) by (nonlinear_arith)
        requires
            t * q <= 2 * (p * b),
            t >= 0x2_0000_0000_0000_0000 * b,
            b > 0,
            q > 0,
    ;
    assert(p / q >= 0x1_0000_0000_0000_0000) by (nonlinear_arith)
        requires
            p >= 0x1_0000_0000_0000_0000 * q,
            q > 0,
    ;
}

/// A value far below one stays below one.
pub proof fn lemma_product_tiny(n: nat, d: nat, factor: nat)
    requires
        d > 0,
        n * 10_000_000_000 <= d,
        factor <= 0x4000_0000,
    ensures
        product(n, d, factor) == 0,
{
    let (a, b) = double(n, d);
    lemma_double(n, d);
    let (p, q) = double(a * factor, b);
    lemma_double(a * factor, b);
    assert(a * 10_000_000_000 <= 2 * b) by (nonlinear_arith)
        requires
            a * d <= 2 * (n * b),
            n * 10_000_000_000 <= d,
            d > 0,
    ;
    let t = a * factor;
    assert(t * 10_000_000_000 <= 0x8000_0000 * b) by (nonlinear_arith)
        requires
            t == a * factor,
            a * 10_000_000_000 <= 2 * b,
            factor <= 0x4000_0000,
            a >= 0,
    ;
    assert(p < q) by (nonlinear_arith)
        requires
            p * b <= 2 * (t * q),
            t * 10_000_000_000 <= 0x8000_0000 * b,
            b > 0,
            q > 0,
    ;
    assert(p / q == 0) by (nonlinear_arith)
        requires
            0 <= p < q,
    ;
}

/// A value of at most 53 bits is its own double.
pub proof fn lemma_exact(k: nat, d: nat)
    requires
        d > 0,
        k < 0x20_0000_0000_0000,
    ensures
        double(k * d, d).0 == k * double(k * d, d).1,
        double(k * d, d).1 > 0,
        k > 0 ==> double_low(k * d, d).0 == k * double_low(k * d, d).1,
    decreases 0x20_0000_0000_0000 - k,
{
    let n = k * d;
    lemma_double(n, d);
    vstd::arithmetic::div_mod::lemma_div_multiples_vanish(k as int, d as int);
    vstd::arithmetic::div_mod::lemma_mod_multiples_basic(k as int, d as int);
    assert(n == d * k && n / d == k && n % d == 0) by (nonlinear_arith)
        requires
            n == k * d,
            (d * k) as int / (d as int) == k,
            (k * d) as int % (d as int) == 0,
    ;
    assert(nearest_even(n, d) == k);
    assert(k * 1 == k) by (nonlinear_arith);
    if k == 0 {
        assert(0 * d == 0) by (nonlinear_arith);
        assert(0 * double_low(0, d).1 == 0) by (nonlinear_arith);
    } else if k >= 0x10_0000_0000_0000 {
        assert(0x10_0000_0000_0000 * d <= n < 0x20_0000_0000_0000 * d) by (nonlinear_arith)
            requires
                n == k * d,
                0x10_0000_0000_0000 <= k < 0x20_0000_0000_0000,
                d > 0,
        ;
        assert(n > 0);
    } else {
        assert(0 < n < 0x10_0000_0000_0000 * d) by (nonlinear_arith)
            requires
                n == k * d,
                0 < k < 0x10_0000_0000_0000,
                d > 0,
        ;
        lemma_exact(2 * k, d);
        assert((2 * k) * d == 2 * n) by (nonlinear_arith)
            requires
                n == k * d,
        ;
        let (a, b) = double_low(2 * n, d);
        assert((2 * k) * b == k * (2 * b)) by (nonlinear_arith);
    }
}

/// A product of at most 53 bits is exact.
pub proof fn lemma_product_exact(v: nat, factor: nat)
    requires
        v < 0x20_0000_0000_0000,
        v * factor < 0x20_0000_0000_0000,
    ensures
        product(v, 1, factor) == v * factor,
{
    assert(v * 1 == v) by (nonlinear_arith);
    lemma_exact(v, 1);
    let (a, b) = double(v, 1);
    assert(a * factor == (v * factor) * b) by (nonlinear_arith)
        requires
            a == v * b,
    ;
    lemma_exact(v * factor, b);
    let (p, q) = double(a * factor, b);
    let w = v * factor;
    vstd::arithmetic::div_mod::lemma_div_multiples_vanish(w as int, q as int);
    assert(p / q == w) by (nonlinear_arith)
        requires
            p == w * q,
            (q * w) as int / (q as int) == w,
    ;
}

// --- computation ------------------------------------------------------------

/// `d * 2^64`.
fn shifted(d: &Big) -> (r: Big)
    ensures
        r@ == d@ * 0x1_0000_0000_0000_0000,
{
    d.times(0x1_0000, 0).times(0x1_0000, 0).times(0x1_0000, 0).times(0x1_0000, 0)
}

/// The quotient, and how twice the remainder lies to the divisor.
fn divide(n: &Big, d: &Big) -> (r: (u64, Side))
    requires
        d@ > 0,
        n@ < d@ * 0x1_0000_0000_0000_0000,
    ensures
        r.0 == n@ / d@,
        r.1 == side(2 * (n@ % d@), d@),
{
    let top = shifted(d);
    let mut rest = n.plus(0);
    let mut q: u64 = 0;
    let mut k: u32 = 0;
    proof {
        lemma2_to64();
        assert(n@ * 1 == n@) by (nonlinear_arith);
        assert(0 * top@ == 0) by (nonlinear_arith);
    }
    while k < 64
        invariant
            k <= 64,
            top@ > 0,
            n@ < top@,
            rest@ < top@,
            n@ * pow2(k as nat) == q * top@ + rest@,
        decreases 64 - k,
    {
        let ghost p = pow2(k as nat);
        proof {
            lemma2_to64();
            lemma_pow2_unfold((k + 1) as nat);
            vstd::arithmetic::power2::lemma_pow2_pos(k as nat);
            assert(q < p) by (nonlinear_arith)
                requires
                    n@ * p == q * top@ + rest@,
                    n@ < top@,
                    rest@ >= 0,
                    p > 0,
                    top@ > 0,
            ;
            lemma_pow2_unfold(64);
            if k < 63 {
                vstd::arithmetic::power2::lemma_pow2_strictly_increases(k as nat, 63);
            }
            assert(p <= 0x8000_0000_0000_0000);
            assert(n@ * (2 * p) == (2 * q) * top@ + 2 * rest@) by (nonlinear_arith)
                requires
                    n@ * p == q * top@ + rest@,
            ;
        }
        let twice = rest.times(2, 0);
        if twice.against(&top) == Side::Below {
            rest = twice;
            q = q * 2;
        } else {
            assert((2 * q) * top@ + twice@ == (2 * q + 1) * top@ + (twice@ - top@))
                by (nonlinear_arith);
            rest = twice.less(&top);
            q = q * 2 + 1;
        }
        k += 1;
    }
    proof {
        lemma2_to64();
        let dd = d@ as int;
        let rem = n@ - q * d@;
        assert(rest@ == rem * 0x1_0000_0000_0000_0000) by (nonlinear_arith)
            requires
                n@ * 0x1_0000_0000_0000_0000 == q * top@ + rest@,
                top@ == d@ * 0x1_0000_0000_0000_0000,
                rem == n@ - q * d@,
        ;
        assert(n@ as int == dd * (q as int) + rem) by (nonlinear_arith)
            requires
                rem == n@ - q * d@,
                dd == d@,
        ;
        lemma_fundamental_div_mod_converse(n@ as int, dd, q as int, rem);
    }
    let twice = rest.times(2, 0);
    (q, twice.against(&top))
}

fn near(n: &Big, d: &Big) -> (r: u64)
    requires
        d@ > 0,
        n@ < 0x20_0000_0000_0000 * d@,
    ensures
        r == nearest_even(n@, d@),
{
    let (q, twice) = divide(n, d);
    proof {
        lemma_fundamental_div_mod(n@ as int, d@ as int);
        let nn = n@;
        let dd = d@;
        assert(q < 0x20_0000_0000_0000) by (nonlinear_arith)
            requires
                nn == dd * q + nn % dd,
                nn % dd >= 0,
                nn < 0x20_0000_0000_0000 * dd,
                dd > 0,
        ;
    }
    match twice {
        Side::Below => q,
        Side::Level => if q % 2 == 0 {
            q
        } else {
            q + 1
        },
        Side::Above => q + 1,
    }
}

/// `d * 2^53`.
fn top_of(d: &Big) -> (r: Big)
    ensures
        r@ == 0x20_0000_0000_0000 * d@,
{
    d.times(0x1_0000, 0).times(0x1_0000, 0).times(0x20_0000, 0)
}

fn round_high(n: Big, d: Big) -> (r: (Big, Big))
    requires
        d@ > 0,
    ensures
        (r.0@, r.1@) == double_high(n@, d@),
    decreases n@ - d@,
{
    if n.against(&top_of(&d)) == Side::Below {
        (Big::of(near(&n, &d)), Big::small(1))
    } else {
        let (a, b) = round_high(n, d.times(2, 0));
        (a.times(2, 0), b)
    }
}

fn round_low(n: Big, d: Big) -> (r: (Big, Big))
    requires
        d@ > 0,
        n@ < 0x20_0000_0000_0000 * d@,
    ensures
        (r.0@, r.1@) == double_low(n@, d@),
    decreases (if n@ < 0x10_0000_0000_0000 * d@ {
        0x10_0000_0000_0000 * d@ - n@
    } else {
        0
    }),
{
    if n.against(&Big::small(0)) == Side::Level {
        return (Big::small(0), Big::small(1));
    }
    let twice = n.times(2, 0);
    if twice.against(&top_of(&d)) != Side::Below {
        (Big::of(near(&n, &d)), Big::small(1))
    } else {
        let (a, b) = round_low(twice, d);
        (a, b.times(2, 0))
    }
}

/// The double of a fraction.
pub fn round(n: Big, d: Big) -> (r: (Big, Big))
    requires
        d@ > 0,
    ensures
        (r.0@, r.1@) == double(n@, d@),
        r.1@ > 0,
{
    proof {
        lemma_double(n@, d@);
    }
    let twice = n.times(2, 0);
    if twice.against(&top_of(&d)) != Side::Below {
        round_high(n, d)
    } else {
        round_low(n, d)
    }
}

/// The whole part of a fraction, capped at 64 bits.
fn cut(n: &Big, d: &Big) -> (r: u64)
    requires
        d@ > 0,
    ensures
        r == whole(n@, d@),
{
    if n.against(&shifted(d)) == Side::Below {
        divide(n, d).0
    } else {
        assert(n@ / d@ >= 0x1_0000_0000_0000_0000) by (nonlinear_arith)
            requires
                n@ >= d@ * 0x1_0000_0000_0000_0000,
                d@ > 0,
        ;
        u64::MAX
    }
}

/// Multiplies a fraction by a factor in double precision.
pub fn multiply(n: Big, d: Big, factor: u32) -> (r: u64)
    requires
        d@ > 0,
    ensures
        r == product(n@, d@, factor as nat),
{
    let (a, b) = round(n, d);
    let (p, q) = round(a.times(factor, 0), b);
    cut(&p, &q)
}

/// The nearest whole number lies at most half of one away; of two as near it
/// is the even one.
pub proof fn law_nearest_even(n: nat, d: nat)
    requires
        d > 0,
    ensures
        2 * (nearest_even(n, d) * d) <= 2 * n + d,
        2 * n <= 2 * (nearest_even(n, d) * d) + d,
        2 * (nearest_even(n, d) * d) == 2 * n + d || 2 * n == 2 * (nearest_even(n, d) * d) + d
            ==> nearest_even(n, d) % 2 == 0,
{
    let q = n / d;
    let r = n % d;
    assert(n == q * d + r && r < d) by (nonlinear_arith)
        requires
            d > 0,
            q == n / d,
            r == n % d,
    ;
    assert((q + 1) * d == q * d + d) by (nonlinear_arith);
}

proof fn lemma_near_half(a: nat, n: nat, d: nat, k: nat)
    requires
        d > 0,
        2 * (a * d) <= 2 * n + d,
        2 * n <= 2 * (a * d) + d,
        n >= k * d,
    ensures
        2 * k * (a * d) <= (2 * k + 1) * n,
        (2 * k) * n <= 2 * k * (a * d) + n,
{
    let p = a * d;
    assert(2 * k * p <= 2 * k * n + k * d) by (nonlinear_arith)
        requires
            2 * p <= 2 * n + d,
    ;
    assert(2 * k * n <= 2 * k * p + k * d) by (nonlinear_arith)
        requires
            2 * n <= 2 * p + d,
    ;
    assert((2 * k + 1) * n == 2 * k * n + n) by (nonlinear_arith);
}

proof fn lemma_high_close(n: nat, d: nat)
    requires
        d > 0,
        n >= 0x10_0000_0000_0000 * d,
    ensures
        ({
            let (a, b) = double_high(n, d);
            &&& b > 0
            &&& 0x20_0000_0000_0000 * (a * d) <= 0x20_0000_0000_0001 * (n * b)
            &&& 0x20_0000_0000_0000 * (n * b) <= 0x20_0000_0000_0000 * (a * d) + n * b
        }),
    decreases n - d,
{
    let (a, b) = double_high(n, d);
    if n < 0x20_0000_0000_0000 * d {
        law_nearest_even(n, d);
        lemma_near_half(a, n, d, 0x10_0000_0000_0000);
        assert(n * b == n) by (nonlinear_arith)
            requires
                b == 1,
        ;
    } else {
        lemma_high_close(n, 2 * d);
        let (x, y) = double_high(n, 2 * d);
        assert(a * d == x * (2 * d)) by (nonlinear_arith)
            requires
                a == 2 * x,
        ;
    }
}

proof fn lemma_low_close(n: nat, d: nat)
    requires
        d > 0,
    ensures
        ({
            let (a, b) = double_low(n, d);
            &&& b > 0
            &&& 0x20_0000_0000_0000 * (a * d) <= 0x20_0000_0000_0001 * (n * b)
            &&& 0x20_0000_0000_0000 * (n * b) <= 0x20_0000_0000_0000 * (a * d) + n * b
        }),
    decreases (if n < 0x10_0000_0000_0000 * d {
        0x10_0000_0000_0000 * d - n
    } else {
        0
    }),
{
    let (a, b) = double_low(n, d);
    if n == 0 {
        assert(a * d == 0 && n * b == 0) by (nonlinear_arith)
            requires
                a == 0,
                n == 0,
        ;
    } else if n >= 0x10_0000_0000_0000 * d {
        law_nearest_even(n, d);
        lemma_near_half(a, n, d, 0x10_0000_0000_0000);
        assert(n * b == n) by (nonlinear_arith)
            requires
                b == 1,
        ;
    } else {
        lemma_low_close(2 * n, d);
        let (x, y) = double_low(2 * n, d);
        assert((2 * n) * y == n * b) by (nonlinear_arith)
            requires
                b == 2 * y,
        ;
    }
}

/// A double lies within one part in `2^53` of the value that it stands for.
pub proof fn law_double_close(n: nat, d: nat)
    requires
        d > 0,
    ensures
        ({
            let (a, b) = double(n, d);
            &&& b > 0
            &&& 0x20_0000_0000_0000 * (a * d) <= 0x20_0000_0000_0001 * (n * b)
            &&& 0x20_0000_0000_0000 * (n * b) <= 0x20_0000_0000_0000 * (a * d) + n * b
        }),
{
    if n >= 0x10_0000_0000_0000 * d {
        lemma_high_close(n, d);
    } else {
        lemma_low_close(n, d);
    }
}

/// A value is cut down to a whole number, and capped at 64 bits.
pub proof fn law_whole(n: nat, d: nat)
    requires
        d > 0,
    ensures
        n < d * 0x1_0000_0000_0000_0000 ==> whole(n, d) * d <= n && n < (whole(n, d) + 1) * d,
        n >= d * 0x1_0000_0000_0000_0000 ==> whole(n, d) == u64::MAX,
{
    let q = n / d;
    assert(q * d <= n && n < (q + 1) * d) by (nonlinear_arith)
        requires
            d > 0,
            q == n / d,
    ;
    if n < d * 0x1_0000_0000_0000_0000 {
        assert(q < 0x1_0000_0000_0000_0000) by (nonlinear_arith)
            requires
                q * d <= n,
                n < d * 0x1_0000_0000_0000_0000,
                d > 0,
        ;
    } else {
        assert(q + 1 > 0x1_0000_0000_0000_0000) by (nonlinear_arith)
            requires
                n < (q + 1) * d,
                n >= d * 0x1_0000_0000_0000_0000,
                d > 0,
        ;
    }
}

proof fn lemma_scaled_down(x: int, y: int, k: int)
    requires
        k > 0,
        x * k <= y * k,
    ensures
        x <= y,
{
    assert(x <= y) by (nonlinear_arith)
        requires
            k > 0,
            x * k <= y * k,
    ;
}

/// A chain of two roundings, each off by at most the share `s / t`.
proof fn lemma_chain(
    n: int,
    d: int,
    f: int,
    a: int,
    b: int,
    p: int,
    q: int,
    w: int,
    t: int,
    s: int,
)
    requires
        n >= 0 && d > 0 && f >= 0 && a >= 0 && b > 0 && p >= 0 && q > 0 && w >= 0 && t > 0 && s > 0,
        t * (a * d) <= s * (n * b),
        t * (p * b) <= s * ((a * f) * q),
        w * q <= p,
    ensures
        (t * t) * (w * d) <= (s * s) * (n * f),
{
    assert((w * q) * b <= p * b) by (nonlinear_arith)
        requires
            w * q <= p,
            b > 0,
    ;
    assert(t * ((w * q) * b) <= t * (p * b)) by (nonlinear_arith)
        requires
            (w * q) * b <= p * b,
            t > 0,
    ;
    assert((t * d) * (t * ((w * q) * b)) <= (t * d) * (s * ((a * f) * q))) by (nonlinear_arith)
        requires
            t * ((w * q) * b) <= s * ((a * f) * q),
            t > 0,
            d > 0,
    ;
    assert(((s * f) * q) * (t * (a * d)) <= ((s * f) * q) * (s * (n * b))) by (nonlinear_arith)
        requires
            t * (a * d) <= s * (n * b),
            s > 0,
            f >= 0,
            q > 0,
    ;
    assert((t * d) * (s * ((a * f) * q)) == ((s * f) * q) * (t * (a * d))) by (nonlinear_arith);
    assert((t * d) * (t * ((w * q) * b)) == ((t * t) * (w * d)) * (q * b)) by (nonlinear_arith);
    assert(((s * f) * q) * (s * (n * b)) == ((s * s) * (n * f)) * (q * b)) by (nonlinear_arith);
    assert(q * b > 0) by (nonlinear_arith)
        requires
            q > 0,
            b > 0,
    ;
    lemma_scaled_down((t * t) * (w * d), (s * s) * (n * f), q * b);
}

/// As above, from below.
proof fn lemma_chain_below(
    n: int,
    d: int,
    f: int,
    a: int,
    b: int,
    p: int,
    q: int,
    w: int,
    t: int,
    s: int,
)
    requires
        n >= 0 && d > 0 && f >= 0 && a >= 0 && b > 0 && p >= 0 && q > 0 && w >= 0 && t > 0 && s > 0,
        s * (n * b) <= t * (a * d),
        s * ((a * f) * q) <= t * (p * b),
        p <= w * q,
    ensures
        (s * s) * (n * f) <= (t * t) * (w * d),
{
    assert(p * b <= (w * q) * b) by (nonlinear_arith)
        requires
            p <= w * q,
            b > 0,
    ;
    assert(t * (p * b) <= t * ((w * q) * b)) by (nonlinear_arith)
        requires
            p * b <= (w * q) * b,
            t > 0,
    ;
    assert((t * d) * (s * ((a * f) * q)) <= (t * d) * (t * ((w * q) * b))) by (nonlinear_arith)
        requires
            s * ((a * f) * q) <= t * ((w * q) * b),
            t > 0,
            d > 0,
    ;
    assert(((s * f) * q) * (s * (n * b)) <= ((s * f) * q) * (t * (a * d))) by (nonlinear_arith)
        requires
            s * (n * b) <= t * (a * d),
            s > 0,
            f >= 0,
            q > 0,
    ;
    assert((t * d) * (s * ((a * f) * q)) == ((s * f) * q) * (t * (a * d))) by (nonlinear_arith);
    assert((t * d) * (t * ((w * q) * b)) == ((t * t) * (w * d)) * (q * b)) by (nonlinear_arith);
    assert(((s * f) * q) * (s * (n * b)) == ((s * s) * (n * f)) * (q * b)) by (nonlinear_arith);
    assert(q * b > 0) by (nonlinear_arith)
        requires
            q > 0,
            b > 0,
    ;
    lemma_scaled_down((s * s) * (n * f), (t * t) * (w * d), q * b);
}

/// A product is `n * factor / d` cut to a whole number, with no more than two
/// roundings at the 53rd bit; what exceeds 64 bits is the largest number.
pub proof fn law_product_close(n: nat, d: nat, factor: nat)
    requires
        d > 0,
    ensures
        ({
            let t: int = 0x20_0000_0000_0000;
            let w = product(n, d, factor) as int;
            &&& (t * t) * (w * d) <= ((t + 1) * (t + 1)) * (n * factor)
            &&& w < u64::MAX ==> ((t - 1) * (t - 1)) * (n * factor) <= (t * t) * ((w + 1) * d)
        }),
{
    let t: int = 0x20_0000_0000_0000;
    let (a, b) = double(n, d);
    law_double_close(n, d);
    let (p, q) = double(a * factor, b);
    law_double_close(a * factor, b);
    law_whole(p, q);
    let w = whole(p, q) as int;
    if p < q * 0x1_0000_0000_0000_0000 {
        lemma_chain(
            n as int,
            d as int,
            factor as int,
            a as int,
            b as int,
            p as int,
            q as int,
            w,
            t,
            t + 1,
        );
        lemma_chain_below(
            n as int,
            d as int,
            factor as int,
            a as int,
            b as int,
            p as int,
            q as int,
            w + 1,
            t,
            t - 1,
        );
    } else {
        assert(w * q <= p) by (nonlinear_arith)
            requires
                w == 0xffff_ffff_ffff_ffff,
                p >= q * 0x1_0000_0000_0000_0000,
                q > 0,
        ;
        lemma_chain(
            n as int,
            d as int,
            factor as int,
            a as int,
            b as int,
            p as int,
            q as int,
            w,
            t,
            t + 1,
        );
    }
}

} // verus!
