//! Single-precision arithmetic on exact integers.
//!
//! A positive real is given as a fraction. Its single is the nearest number
//! with 24 significant bits, the even one of two that are equally near. The
//! exponent is not bounded: the shares that are computed here lie far within
//! the bounds of a single's exponent.

use vstd::prelude::*;

use crate::double::{law_nearest_even, nearest_even};

verus! {

/// The single of `n / d`, at least `2^23`, as a fraction.
pub open spec fn single_high(n: nat, d: nat) -> (nat, nat)
    decreases n - d,
{
    if d == 0 || n < 0x100_0000 * d {
        (nearest_even(n, d), 1)
    } else {
        let (a, b) = single_high(n, 2 * d);
        (2 * a, b)
    }
}

/// The single of `n / d`, below `2^24`, as a fraction.
pub open spec fn single_low(n: nat, d: nat) -> (nat, nat)
    decreases (if n < 0x80_0000 * d {
        0x80_0000 * d - n
    } else {
        0
    }),
{
    if n == 0 {
        (0, 1)
    } else if n >= 0x80_0000 * d {
        (nearest_even(n, d), 1)
    } else {
        let (a, b) = single_low(2 * n, d);
        (a, 2 * b)
    }
}

/// The single of `n / d` as a fraction.
pub open spec fn single(n: nat, d: nat) -> (nat, nat) {
    if n >= 0x80_0000 * d {
        single_high(n, d)
    } else {
        single_low(n, d)
    }
}

/// The integer nearest to a fraction, the even one of two.
pub fn near(n: u128, d: u128) -> (r: u128)
    requires
        0 < d <= 0x100_0000_0000_0000_0000_0000_0000_0000,
        n <= 0x100_0000_0000_0000_0000_0000_0000_0000,
    ensures
        r == nearest_even(n as nat, d as nat),
        r <= n / d + 1,
{
    let q = n / d;
    let twice = 2 * (n % d);
    assert(q <= n) by (nonlinear_arith)
        requires
            q == n / d,
            d > 0,
    ;
    if twice < d || (twice == d && q % 2 == 0) {
        q
    } else {
        q + 1
    }
}

fn round_high(n: u128, d: u128) -> (r: (u128, u128))
    requires
        0 < d,
        0x80_0000 * d <= n <= 0x1_0000_0000_0000_0000_0000,
    ensures
        (r.0 as nat, r.1 as nat) == single_high(n as nat, d as nat),
        r.1 == 1,
        r.0 <= 2 * n,
{
    let mut unit: u128 = d;
    let mut twos: u128 = 1;
    let ghost whole = single_high(n as nat, d as nat);
    assert(1 * whole.0 == whole.0);
    while n >= 0x100_0000 * unit
        invariant
            0 < d,
            1 <= twos,
            unit == twos * d,
            0x80_0000 * unit <= n <= 0x1_0000_0000_0000_0000_0000,
            whole == single_high(n as nat, d as nat),
            whole.0 == twos * single_high(n as nat, unit as nat).0,
            whole.1 == single_high(n as nat, unit as nat).1,
        decreases n - unit,
    {
        let ghost below = single_high(n as nat, (2 * unit) as nat);
        assert(twos * (2 * below.0) == (2 * twos) * below.0) by (nonlinear_arith);
        assert(2 * (twos * d) == (2 * twos) * d) by (nonlinear_arith);
        assert(twos <= unit) by (nonlinear_arith)
            requires
                unit == twos * d,
                d >= 1,
        ;
        unit = 2 * unit;
        twos = 2 * twos;
    }
    let m = near(n, unit);
    assert(m * unit <= 2 * n) by (nonlinear_arith)
        requires
            m <= n / unit + 1,
            unit > 0,
            unit <= n,
    ;
    assert(twos * m <= m * unit) by (nonlinear_arith)
        requires
            unit == twos * d,
            d >= 1,
            m >= 0,
            twos >= 0,
    ;
    (twos * m, 1)
}

fn round_low(n: u128, d: u128) -> (r: (u128, u128))
    requires
        0 < d <= 0x400_0000_0000_0000_0000_0000,
        n < 0x80_0000 * d,
    ensures
        (r.0 as nat, r.1 as nat) == single_low(n as nat, d as nat),
        0 < r.1 <= 0x100_0000 * d,
        r.0 <= 0x100_0001,
{
    if n == 0 {
        return (0, 1);
    }
    let mut top: u128 = n;
    let mut twos: u128 = 1;
    let ghost whole = single_low(n as nat, d as nat);
    assert(1 * whole.1 == whole.1);
    while top < 0x80_0000 * d
        invariant
            0 < d <= 0x400_0000_0000_0000_0000_0000,
            0 < n,
            1 <= twos <= 0x100_0000 * d,
            top == twos * n,
            0 < top < 0x100_0000 * d,
            whole == single_low(n as nat, d as nat),
            whole.0 == single_low(top as nat, d as nat).0,
            whole.1 == twos * single_low(top as nat, d as nat).1,
        decreases 0x100_0000 * d - top,
    {
        let ghost below = single_low((2 * top) as nat, d as nat);
        assert(twos * (2 * below.1) == (2 * twos) * below.1) by (nonlinear_arith);
        assert(2 * (twos * n) == (2 * twos) * n) by (nonlinear_arith);
        assert(twos <= top) by (nonlinear_arith)
            requires
                top == twos * n,
                n >= 1,
        ;
        top = 2 * top;
        twos = 2 * twos;
    }
    let m = near(top, d);
    assert(top / d < 0x100_0000) by (nonlinear_arith)
        requires
            top < 0x100_0000 * d,
            d > 0,
    ;
    assert(twos * 1 == twos);
    (m, twos)
}

/// Rounds a fraction to single precision.
pub fn round_single(n: u128, d: u128) -> (r: (u128, u128))
    requires
        0 < d <= 0x400_0000_0000_0000_0000_0000,
        n <= 0x1_0000_0000_0000_0000_0000,
    ensures
        (r.0 as nat, r.1 as nat) == single(n as nat, d as nat),
        0 < r.1 <= 0x100_0000 * d,
        r.0 <= 2 * n + 0x100_0001,
{
    if n >= 0x80_0000 * d {
        round_high(n, d)
    } else {
        round_low(n, d)
    }
}

proof fn lemma_close_half(a: nat, n: nat, d: nat)
    requires
        d > 0,
        2 * (a * d) <= 2 * n + d,
        2 * n <= 2 * (a * d) + d,
        n >= 0x80_0000 * d,
    ensures
        0x100_0000 * (a * d) <= 0x100_0001 * n,
        0x100_0000 * n <= 0x100_0000 * (a * d) + n,
{
}

proof fn lemma_single_high_close(n: nat, d: nat)
    requires
        d > 0,
        n >= 0x80_0000 * d,
    ensures
        ({
            let (a, b) = single_high(n, d);
            &&& b > 0
            &&& 0x100_0000 * (a * d) <= 0x100_0001 * (n * b)
            &&& 0x100_0000 * (n * b) <= 0x100_0000 * (a * d) + n * b
        }),
    decreases n - d,
{
    let (a, b) = single_high(n, d);
    if n < 0x100_0000 * d {
        law_nearest_even(n, d);
        lemma_close_half(a, n, d);
        assert(n * b == n) by (nonlinear_arith)
            requires
                b == 1,
        ;
    } else {
        lemma_single_high_close(n, 2 * d);
        let (x, y) = single_high(n, 2 * d);
        assert(a * d == x * (2 * d)) by (nonlinear_arith)
            requires
                a == 2 * x,
        ;
    }
}

proof fn lemma_single_low_close(n: nat, d: nat)
    requires
        d > 0,
    ensures
        ({
            let (a, b) = single_low(n, d);
            &&& b > 0
            &&& 0x100_0000 * (a * d) <= 0x100_0001 * (n * b)
            &&& 0x100_0000 * (n * b) <= 0x100_0000 * (a * d) + n * b
        }),
    decreases (if n < 0x80_0000 * d {
        0x80_0000 * d - n
    } else {
        0
    }),
{
    let (a, b) = single_low(n, d);
    if n == 0 {
        assert(a * d == 0 && n * b == 0) by (nonlinear_arith)
            requires
                a == 0,
                n == 0,
        ;
    } else if n >= 0x80_0000 * d {
        law_nearest_even(n, d);
        lemma_close_half(a, n, d);
        assert(n * b == n) by (nonlinear_arith)
            requires
                b == 1,
        ;
    } else {
        lemma_single_low_close(2 * n, d);
        let (x, y) = single_low(2 * n, d);
        assert((2 * n) * y == n * b) by (nonlinear_arith)
            requires
                b == 2 * y,
        ;
    }
}

/// A single lies within one part in `2^24` of the value that it stands for.
pub proof fn law_single_close(n: nat, d: nat)
    requires
        d > 0,
    ensures
        ({
            let (a, b) = single(n, d);
            &&& b > 0
            &&& 0x100_0000 * (a * d) <= 0x100_0001 * (n * b)
            &&& 0x100_0000 * (n * b) <= 0x100_0000 * (a * d) + n * b
        }),
{
    if n >= 0x80_0000 * d {
        lemma_single_high_close(n, d);
    } else {
        lemma_single_low_close(n, d);
    }
}

} // verus!
