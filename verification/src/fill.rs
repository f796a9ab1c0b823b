//! How full disks and memory are, in single precision.

use vstd::arithmetic::div_mod::lemma_fundamental_div_mod_converse;
use vstd::arithmetic::power2::{
    lemma2_to64, lemma_pow2_pos, lemma_pow2_strictly_increases, lemma_pow2_unfold, pow2,
};
use vstd::prelude::*;
use vstd::string::*;

use crate::double::{law_nearest_even, nearest_even};
use crate::number::{decimal, show_wide};
use crate::shell::Tone;
use crate::single::{law_single_close, near, round_single, single, single_high, single_low};

verus! {

/// The whole number that a 64-bit number becomes in single precision.
pub open spec fn as_single(n: nat) -> nat {
    if n < 0x100_0000 {
        n
    } else {
        single(n, 1).0
    }
}

/// The share of a total that is used, as a fraction; nothing of nothing.
pub open spec fn fill_of(used: u64, total: u64) -> (nat, nat) {
    if total == 0 {
        (0, 1)
    } else {
        single(as_single(used as nat), as_single(total as nat))
    }
}

/// Whether a share is at least so many parts of `2^24`.
pub open spec fn reaches(share: (nat, nat), parts: nat) -> bool {
    share.0 * 0x100_0000 >= parts * share.1
}

/// The single nearest to 0.60, in parts of `2^24`.
pub const MEDIUM: u32 = 10_066_330;

/// The single nearest to 0.85.
pub const HIGH: u32 = 14_260_634;

/// The single nearest to 0.90.
pub const CRITICAL: u32 = 15_099_494;

/// How something so full is coloured.
pub open spec fn tone_of(used: u64, total: u64) -> Tone {
    if !reaches(fill_of(used, total), MEDIUM as nat) {
        Tone::Good
    } else if !reaches(fill_of(used, total), HIGH as nat) {
        Tone::Warn
    } else {
        Tone::Bad
    }
}

/// So full that it needs attention.
pub open spec fn nearly_full(used: u64, total: u64) -> bool {
    reaches(fill_of(used, total), HIGH as nat)
}

/// So full that the whole system does.
pub open spec fn critically_full(used: u64, total: u64) -> bool {
    reaches(fill_of(used, total), CRITICAL as nat)
}

/// The share in per cent, rounded to a whole number.
pub open spec fn percent_of(used: u64, total: u64) -> nat {
    let q = fill_of(used, total);
    let p = single(q.0 * 100, q.1);
    nearest_even(p.0, p.1)
}

fn to_single(n: u64) -> (r: u128)
    ensures
        r == as_single(n as nat),
        r <= 0x4_0000_0000_0000_0000,
        n > 0 ==> r > 0,
{
    if n < 0x100_0000 {
        return n as u128;
    }
    let r = round_single(n as u128, 1);
    assert(r.0 > 0) by {
        lemma_high_positive(n as nat, 1);
    }
    r.0
}

proof fn lemma_high_positive(n: nat, d: nat)
    requires
        d > 0,
        n >= 0x80_0000 * d,
    ensures
        single(n, d).0 > 0,
    decreases n - d,
{
    if n < 0x100_0000 * d {
        assert(n / d > 0) by (nonlinear_arith)
            requires
                n >= 0x80_0000 * d,
                d > 0,
        ;
    } else {
        lemma_high_positive(n, 2 * d);
    }
}

fn share(used: u64, total: u64) -> (r: (u128, u128))
    ensures
        (r.0 as nat, r.1 as nat) == fill_of(used, total),
        r.0 <= 0x8_0000_0000_1000_0000,
        0 < r.1 <= 0x400_0000_0000_0000_0000_0000,
{
    if total == 0 {
        return (0, 1);
    }
    let a = to_single(used);
    let b = to_single(total);
    round_single(a, b)
}

fn at_least(share: (u128, u128), parts: u32) -> (r: bool)
    requires
        share.0 <= 0x8_0000_0000_1000_0000,
        share.1 <= 0x400_0000_0000_0000_0000_0000,
    ensures
        r == reaches((share.0 as nat, share.1 as nat), parts as nat),
{
    let p: u128 = parts as u128;
    assert(p * share.1 <= 0x1_0000_0000 * 0x400_0000_0000_0000_0000_0000) by (nonlinear_arith)
        requires
            p <= 0x1_0000_0000,
            0 <= share.1 <= 0x400_0000_0000_0000_0000_0000,
    ;
    share.0 * 0x100_0000 >= p * share.1
}

/// How something so full is coloured.
pub fn usage_tone(used: u64, total: u64) -> (r: Tone)
    ensures
        r == tone_of(used, total),
{
    let q = share(used, total);
    if !at_least(q, MEDIUM) {
        Tone::Good
    } else if !at_least(q, HIGH) {
        Tone::Warn
    } else {
        Tone::Bad
    }
}

/// The share in per cent, as a text.
pub fn percent(used: u64, total: u64) -> (r: String)
    ensures
        r@ == decimal(percent_of(used, total)),
{
    let q = share(used, total);
    let p = round_single(100 * q.0, q.1);
    show_wide(near(p.0, p.1))
}

/// Whether something is so full that it needs attention.
pub fn is_nearly_full(used: u64, total: u64) -> (r: bool)
    ensures
        r == nearly_full(used, total),
{
    at_least(share(used, total), HIGH)
}

/// Whether something is so full that the whole system needs attention.
pub fn is_critically_full(used: u64, total: u64) -> (r: bool)
    ensures
        r == critically_full(used, total),
{
    at_least(share(used, total), CRITICAL)
}

/// What is critically full is nearly full, and what is nearly full is shown in
/// the worst colour.
pub proof fn law_levels_rise(used: u64, total: u64)
    ensures
        critically_full(used, total) ==> nearly_full(used, total),
        nearly_full(used, total) <==> tone_of(used, total) == Tone::Bad,
{
    let q = fill_of(used, total);
    assert(CRITICAL as nat * q.1 >= HIGH as nat * q.1) by (nonlinear_arith);
    assert(HIGH as nat * q.1 >= MEDIUM as nat * q.1) by (nonlinear_arith);
}

/// Doubling a number until it is `2^23` times another.
proof fn lemma_level(t: nat, k: nat)
    requires
        t > 0,
        k <= 23,
    ensures
        single_low(pow2((23 - k) as nat) * t, t) == (0x80_0000nat, pow2(k)),
    decreases k,
{
    lemma2_to64();
    let n = pow2((23 - k) as nat) * t;
    if k == 0 {
        assert((0x80_0000 * t) / t == 0x80_0000 && (0x80_0000 * t) % t == 0) by (nonlinear_arith)
            requires
                t > 0,
        ;
    } else {
        lemma_level(t, (k - 1) as nat);
        lemma_pow2_unfold((24 - k) as nat);
        lemma_pow2_unfold(k);
        assert(2 * n == pow2((24 - k) as nat) * t) by (nonlinear_arith)
            requires
                n == pow2((23 - k) as nat) * t,
                pow2((24 - k) as nat) == 2 * pow2((23 - k) as nat),
        ;
        lemma_pow2_strictly_increases((23 - k) as nat, 23);
        lemma_pow2_pos((23 - k) as nat);
        assert(0 < n && n < 0x80_0000 * t) by (nonlinear_arith)
            requires
                n == pow2((23 - k) as nat) * t,
                0 < pow2((23 - k) as nat) < 0x80_0000,
                t > 0,
        ;
    }
}

/// A disk that holds nothing is not full at all, and one that is used up is
/// critically full.
pub proof fn law_ends_of_the_scale(total: u64)
    ensures
        !nearly_full(0, total),
        tone_of(0, total) == Tone::Good,
        total > 0 ==> critically_full(total, total),
{
    if total > 0 {
        let t = as_single(total as nat);
        if total >= 0x100_0000 {
            lemma_high_positive(total as nat, 1);
        }
        assert(t > 0);
        assert(single(0, t) == (0nat, 1nat));
        lemma_level(t, 23);
        lemma2_to64();
        assert(pow2(0) * t == t);
        assert(single_low(t, t) == (0x80_0000nat, 0x80_0000nat));
    }
}

proof fn lemma_high_whole(n: nat, d: nat)
    requires
        d > 0,
        n >= 0x80_0000 * d,
    ensures
        single_high(n, d).1 == 1,
    decreases n - d,
{
    if n >= 0x100_0000 * d {
        lemma_high_whole(n, 2 * d);
    }
}

/// A whole number moves by at most one part in `2^24`.
pub proof fn law_as_single(n: nat)
    ensures
        n < 0x100_0000 ==> as_single(n) == n,
        0x100_0000 * as_single(n) <= 0x100_0001 * n,
        0xff_ffff * n <= 0x100_0000 * as_single(n),
{
    if n >= 0x100_0000 {
        law_single_close(n, 1);
        lemma_high_whole(n, 1);
        let (a, b) = single(n, 1);
        assert(a * 1 == a && n * b == n) by (nonlinear_arith)
            requires
                b == 1,
        ;
    }
}

/// A share that is a millionth above a level reaches it.
proof fn lemma_reaches(used: u64, total: u64, level: nat, millionths: nat)
    requires
        total > 0,
        1_000_000 * used >= millionths * total,
        millionths * (0xff_ffff * 0xff_ffff) >= 1_000_000 * level * 0x100_0001,
        level > 0,
    ensures
        reaches(fill_of(used, total), level),
{
    let u = used as int;
    let t = total as int;
    let x = as_single(used as nat) as int;
    let y = as_single(total as nat) as int;
    law_as_single(used as nat);
    law_as_single(total as nat);
    assert(y > 0);
    law_single_close(x as nat, y as nat);
    let (a, b) = single(x as nat, y as nat);
    let a = a as int;
    let b = b as int;
    let l = level as int;
    if a * 0x100_0000 < l * b {
        assert(0x100_0000 * (a * y) < l * (b * y)) by (nonlinear_arith)
            requires
                a * 0x100_0000 < l * b,
                y > 0,
        ;
        assert(0xff_ffff * (x * b) < l * (b * y));
        assert(0xff_ffff * x < l * y) by (nonlinear_arith)
            requires
                0xff_ffff * (x * b) < l * (b * y),
                b > 0,
        ;
        assert(0xff_ffff * (0x100_0000 * x) <= l * (0x100_0000 * y)) by (nonlinear_arith)
            requires
                0xff_ffff * x < l * y,
        ;
        assert(l * (0x100_0000 * y) <= l * (0x100_0001 * t)) by (nonlinear_arith)
            requires
                0x100_0000 * y <= 0x100_0001 * t,
                l > 0,
        ;
        assert(0xff_ffff * (0x100_0000 * x) < l * (0x100_0000 * y)) by (nonlinear_arith)
            requires
                0xff_ffff * x < l * y,
        ;
        assert(0xff_ffff * (0xff_ffff * u) < l * (0x100_0001 * t));
        let k = millionths as int;
        assert(k * (0xff_ffff * 0xff_ffff) * t >= 1_000_000 * l * 0x100_0001 * t) by (nonlinear_arith)
            requires
                k * (0xff_ffff * 0xff_ffff) >= 1_000_000 * l * 0x100_0001,
                t > 0,
        ;
        assert(0xff_ffff * 0xff_ffff * (1_000_000 * u) >= 0xff_ffff * 0xff_ffff * (k * t))
            by (nonlinear_arith)
            requires
                1_000_000 * u >= k * t,
        ;
        assert(k * (0xff_ffff * 0xff_ffff) * t == 0xff_ffff * 0xff_ffff * (k * t))
            by (nonlinear_arith);
        assert(l * (0x100_0001 * t) * 1_000_000 == 1_000_000 * l * 0x100_0001 * t) by (nonlinear_arith);
        assert(false);
    }
}

/// A share that is a millionth below a level does not reach it.
proof fn lemma_stays_below(used: u64, total: u64, level: nat, millionths: nat)
    requires
        total > 0,
        1_000_000 * used <= millionths * total,
        millionths * (0x100_0001 * 0x100_0001) < 1_000_000 * level * 0xff_ffff,
        level > 0,
    ensures
        !reaches(fill_of(used, total), level),
{
    let u = used as int;
    let t = total as int;
    let x = as_single(used as nat) as int;
    let y = as_single(total as nat) as int;
    law_as_single(used as nat);
    law_as_single(total as nat);
    assert(y > 0);
    law_single_close(x as nat, y as nat);
    let (a, b) = single(x as nat, y as nat);
    let a = a as int;
    let b = b as int;
    let l = level as int;
    if a * 0x100_0000 >= l * b {
        assert(0x100_0000 * (a * y) >= l * (b * y)) by (nonlinear_arith)
            requires
                a * 0x100_0000 >= l * b,
                y > 0,
        ;
        assert(0x100_0001 * (x * b) >= l * (b * y));
        assert(0x100_0001 * x >= l * y) by (nonlinear_arith)
            requires
                0x100_0001 * (x * b) >= l * (b * y),
                b > 0,
        ;
        assert(0x100_0001 * (0x100_0000 * x) >= l * (0x100_0000 * y)) by (nonlinear_arith)
            requires
                0x100_0001 * x >= l * y,
        ;
        assert(l * (0x100_0000 * y) >= l * (0xff_ffff * t)) by (nonlinear_arith)
            requires
                0x100_0000 * y >= 0xff_ffff * t,
                l > 0,
        ;
        assert(0x100_0001 * (0x100_0001 * u) >= l * (0xff_ffff * t));
        let k = millionths as int;
        assert(k * (0x100_0001 * 0x100_0001) * t < 1_000_000 * l * 0xff_ffff * t) by (nonlinear_arith)
            requires
                k * (0x100_0001 * 0x100_0001) < 1_000_000 * l * 0xff_ffff,
                t > 0,
        ;
        assert(0x100_0001 * 0x100_0001 * (1_000_000 * u) <= 0x100_0001 * 0x100_0001 * (k * t))
            by (nonlinear_arith)
            requires
                1_000_000 * u <= k * t,
        ;
        assert(k * (0x100_0001 * 0x100_0001) * t == 0x100_0001 * 0x100_0001 * (k * t))
            by (nonlinear_arith);
        assert(l * (0xff_ffff * t) * 1_000_000 == 1_000_000 * l * 0xff_ffff * t) by (nonlinear_arith);
        assert(false);
    }
}

/// The levels lie at 60, 85 and 90 per cent, to within a millionth: below the
/// first the colour is good, from the second on it is bad and attention is
/// needed, and from the third on the whole system needs it.
pub proof fn law_levels(used: u64, total: u64)
    requires
        total > 0,
    ensures
        1_000_000 * used <= 599_999 * total ==> tone_of(used, total) == Tone::Good,
        1_000_000 * used >= 600_001 * total && 1_000_000 * used <= 849_999 * total ==> tone_of(used, total)
            == Tone::Warn,
        1_000_000 * used >= 850_001 * total ==> tone_of(used, total) == Tone::Bad && nearly_full(used, total),
        1_000_000 * used <= 849_999 * total ==> !nearly_full(used, total),
        1_000_000 * used >= 900_001 * total ==> critically_full(used, total),
        1_000_000 * used <= 899_999 * total ==> !critically_full(used, total),
        !nearly_full(used, 0),
        !critically_full(used, 0),
        tone_of(used, 0) == Tone::Good,
{
    if 1_000_000 * used <= 599_999 * total {
        lemma_stays_below(used, total, MEDIUM as nat, 599_999);
    }
    if 1_000_000 * used >= 600_001 * total {
        lemma_reaches(used, total, MEDIUM as nat, 600_001);
    }
    if 1_000_000 * used <= 849_999 * total {
        lemma_stays_below(used, total, HIGH as nat, 849_999);
    }
    if 1_000_000 * used >= 850_001 * total {
        lemma_reaches(used, total, HIGH as nat, 850_001);
        lemma_reaches(used, total, MEDIUM as nat, 600_001);
    }
    if 1_000_000 * used >= 900_001 * total {
        lemma_reaches(used, total, CRITICAL as nat, 900_001);
    }
    if 1_000_000 * used <= 899_999 * total {
        lemma_stays_below(used, total, CRITICAL as nat, 899_999);
    }
}

/// The shares of two roundings to single precision, one of a share of two
/// rounded numbers.
proof fn lemma_shares(
    u: int,
    n: int,
    x: int,
    y: int,
    a: int,
    b: int,
    c: int,
    e: int,
    t: int,
    up: int,
    down: int,
)
    requires
        u >= 0 && n > 0 && x >= 0 && y > 0 && a >= 0 && b > 0 && c >= 0 && e > 0,
        t > 0 && up > 0 && down > 0,
        t * x <= up * u,
        down * n <= t * y,
        t * (a * y) <= up * (x * b),
        t * (c * b) <= up * ((a * 100) * e),
    ensures
        (t * down) * (t * (c * n)) <= (100 * up) * ((up * up) * (e * u)),
{
    assert(t * (t * (a * y)) <= up * ((up * u) * b)) by (nonlinear_arith)
        requires
            t * (a * y) <= up * (x * b),
            t * x <= up * u,
            t > 0,
            up > 0,
            b > 0,
    ;
    assert(t * (a * (down * n)) <= t * (a * (t * y))) by (nonlinear_arith)
        requires
            down * n <= t * y,
            a >= 0,
            t > 0,
    ;
    assert(t * (a * (t * y)) == t * (t * (a * y))) by (nonlinear_arith);
    assert(t * (a * (down * n)) <= up * ((up * u) * b));
    assert((t * (c * b)) * n <= (up * ((a * 100) * e)) * n) by (nonlinear_arith)
        requires
            t * (c * b) <= up * ((a * 100) * e),
            n > 0,
    ;
    assert((t * down) * ((t * (c * b)) * n) <= (t * down) * ((up * ((a * 100) * e)) * n))
        by (nonlinear_arith)
        requires
            (t * (c * b)) * n <= (up * ((a * 100) * e)) * n,
            t > 0,
            down > 0,
    ;
    assert((t * down) * ((up * ((a * 100) * e)) * n) == ((100 * up) * e) * (t * (a * (down * n))))
        by (nonlinear_arith);
    assert(((100 * up) * e) * (t * (a * (down * n))) <= ((100 * up) * e) * (up * ((up * u) * b)))
        by (nonlinear_arith)
        requires
            t * (a * (down * n)) <= up * ((up * u) * b),
            up > 0,
            e > 0,
    ;
    assert((t * down) * ((t * (c * b)) * n) == ((t * down) * (t * (c * n))) * b)
        by (nonlinear_arith);
    assert(((100 * up) * e) * (up * ((up * u) * b)) == ((100 * up) * ((up * up) * (e * u))) * b)
        by (nonlinear_arith);
    let l = (t * down) * (t * (c * n));
    let r = (100 * up) * ((up * up) * (e * u));
    assert(l <= r) by (nonlinear_arith)
        requires
            l * b <= r * b,
            b > 0,
    ;
}

/// As above, from below.
proof fn lemma_shares_below(
    u: int,
    n: int,
    x: int,
    y: int,
    a: int,
    b: int,
    c: int,
    e: int,
    t: int,
    up: int,
    down: int,
)
    requires
        u >= 0 && n > 0 && x >= 0 && y > 0 && a >= 0 && b > 0 && c >= 0 && e > 0,
        t > 0 && up > 0 && down > 0,
        down * u <= t * x,
        t * y <= up * n,
        down * (x * b) <= t * (a * y),
        down * ((a * 100) * e) <= t * (c * b),
    ensures
        (100 * down) * ((down * down) * (e * u)) <= (t * up) * (t * (c * n)),
{
    assert(down * ((down * u) * b) <= t * (t * (a * y))) by (nonlinear_arith)
        requires
            down * (x * b) <= t * (a * y),
            down * u <= t * x,
            t > 0,
            down > 0,
            b > 0,
    ;
    assert(t * (a * (t * y)) <= t * (a * (up * n))) by (nonlinear_arith)
        requires
            t * y <= up * n,
            a >= 0,
            t > 0,
    ;
    assert(t * (a * (t * y)) == t * (t * (a * y))) by (nonlinear_arith);
    assert(down * ((down * u) * b) <= t * (a * (up * n)));
    assert((down * ((a * 100) * e)) * n <= (t * (c * b)) * n) by (nonlinear_arith)
        requires
            down * ((a * 100) * e) <= t * (c * b),
            n > 0,
    ;
    assert((t * up) * ((down * ((a * 100) * e)) * n) <= (t * up) * ((t * (c * b)) * n))
        by (nonlinear_arith)
        requires
            (down * ((a * 100) * e)) * n <= (t * (c * b)) * n,
            t > 0,
            up > 0,
    ;
    assert((t * up) * ((down * ((a * 100) * e)) * n) == ((100 * down) * e) * (t * (a * (up * n))))
        by (nonlinear_arith);
    assert(((100 * down) * e) * (down * ((down * u) * b)) <= ((100 * down) * e) * (t * (a * (up * n))))
        by (nonlinear_arith)
        requires
            down * ((down * u) * b) <= t * (a * (up * n)),
            down > 0,
            e > 0,
    ;
    assert((t * up) * ((t * (c * b)) * n) == ((t * up) * (t * (c * n))) * b) by (nonlinear_arith);
    assert(((100 * down) * e) * (down * ((down * u) * b)) == ((100 * down) * ((down * down) * (e
        * u))) * b) by (nonlinear_arith);
    let l = (100 * down) * ((down * down) * (e * u));
    let r = (t * up) * (t * (c * n));
    assert(l <= r) by (nonlinear_arith)
        requires
            l * b <= r * b,
            b > 0,
    ;
}

/// The percentage is that of the share, to within half a per cent and a
/// millionth.
pub proof fn law_percent(used: u64, total: u64)
    requires
        total > 0,
    ensures
        1_000_000 * ((2 * percent_of(used, total) - 1) * total) <= 1_000_001 * (200 * used),
        1_000_000 * (200 * used) <= 1_000_001 * ((2 * percent_of(used, total) + 1) * total),
        percent_of(used, 0) == 0,
{
    let u = used as int;
    let n = total as int;
    let x = as_single(used as nat);
    let y = as_single(total as nat);
    law_as_single(used as nat);
    law_as_single(total as nat);
    assert(y > 0);
    law_single_close(x, y);
    let (a, b) = single(x, y);
    law_single_close(a * 100, b);
    let (c, e) = single(a * 100, b);
    law_nearest_even(c, e);
    let w = percent_of(used, total) as int;
    let (x, y, a, b, c, e) = (x as int, y as int, a as int, b as int, c as int, e as int);
    let t: int = 0x100_0000;
    lemma_shares(u, n, x, y, a, b, c, e, t, t + 1, t - 1);
    lemma_shares_below(u, n, x, y, a, b, c, e, t, t + 1, t - 1);
    assert(((2 * w - 1) * n) * e <= 2 * (c * n)) by (nonlinear_arith)
        requires
            2 * (w * e) <= 2 * c + e,
            n > 0,
    ;
    assert(2 * (c * n) <= ((2 * w + 1) * n) * e) by (nonlinear_arith)
        requires
            2 * c <= 2 * (w * e) + e,
            n > 0,
    ;
    let lo = (2 * w - 1) * n;
    let hi = (2 * w + 1) * n;
    let p: int = (t * (t - 1)) * t;
    let q: int = ((t + 1) * (t + 1)) * (t + 1);
    assert(p * (c * n) <= 100 * (q * (e * u))) by (nonlinear_arith)
        requires
            (t * (t - 1)) * (t * (c * n)) <= (100 * (t + 1)) * (((t + 1) * (t + 1)) * (e * u)),
            p == (t * (t - 1)) * t,
            q == ((t + 1) * (t + 1)) * (t + 1),
    ;
    assert(p * (lo * e) <= 200 * (q * (e * u))) by (nonlinear_arith)
        requires
            p * (c * n) <= 100 * (q * (e * u)),
            lo * e <= 2 * (c * n),
            p > 0,
    ;
    assert(p * lo <= 200 * (q * u)) by (nonlinear_arith)
        requires
            p * (lo * e) <= 200 * (q * (e * u)),
            e > 0,
    ;
    assert(1_000_000 * q <= 1_000_001 * p);
    assert(1_000_000 * (p * lo) <= 1_000_001 * (p * (200 * u))) by (nonlinear_arith)
        requires
            p * lo <= 200 * (q * u),
            1_000_000 * q <= 1_000_001 * p,
            u >= 0,
    ;
    assert(1_000_000 * lo <= 1_000_001 * (200 * u)) by (nonlinear_arith)
        requires
            1_000_000 * (p * lo) <= 1_000_001 * (p * (200 * u)),
            p > 0,
    ;
    let g: int = (t * (t + 1)) * t;
    let h: int = ((t - 1) * (t - 1)) * (t - 1);
    assert(100 * (h * (e * u)) <= g * (c * n)) by (nonlinear_arith)
        requires
            (100 * (t - 1)) * (((t - 1) * (t - 1)) * (e * u)) <= (t * (t + 1)) * (t * (c * n)),
            g == (t * (t + 1)) * t,
            h == ((t - 1) * (t - 1)) * (t - 1),
    ;
    assert(200 * (h * (e * u)) <= g * (hi * e)) by (nonlinear_arith)
        requires
            100 * (h * (e * u)) <= g * (c * n),
            2 * (c * n) <= hi * e,
            g > 0,
    ;
    assert(200 * (h * u) <= g * hi) by (nonlinear_arith)
        requires
            200 * (h * (e * u)) <= g * (hi * e),
            e > 0,
    ;
    assert(1_000_000 * g <= 1_000_001 * h);
    assert(hi >= 0) by (nonlinear_arith)
        requires
            hi == (2 * w + 1) * n,
            w >= 0,
            n > 0,
    ;
    assert(1_000_000 * (h * (200 * u)) <= 1_000_001 * (h * hi)) by (nonlinear_arith)
        requires
            200 * (h * u) <= g * hi,
            1_000_000 * g <= 1_000_001 * h,
            hi >= 0,
    ;
    assert(1_000_000 * (200 * u) <= 1_000_001 * hi) by (nonlinear_arith)
        requires
            1_000_000 * (h * (200 * u)) <= 1_000_001 * (h * hi),
            h > 0,
    ;
    law_single_close(0, 1);
    assert(single(0, 1) == (0nat, 1nat));
}

proof fn lemma_nearest_scales(n: nat, d: nat, k: nat)
    requires
        d > 0,
        k > 0,
    ensures
        nearest_even(n * k, d * k) == nearest_even(n, d),
{
    let q = n / d;
    let r = n % d;
    assert(n == q * d + r && r < d) by (nonlinear_arith)
        requires
            d > 0,
            q == n / d,
            r == n % d,
    ;
    assert(n * k == q * (d * k) + r * k) by (nonlinear_arith)
        requires
            n == q * d + r,
    ;
    assert(r * k < d * k && d * k > 0) by (nonlinear_arith)
        requires
            r < d,
            k > 0,
    ;
    lemma_fundamental_div_mod_converse(
        (n * k) as int,
        (d * k) as int,
        q as int,
        (r * k) as int,
    );
    assert(2 * (r * k) < d * k <==> 2 * r < d) by (nonlinear_arith)
        requires
            k > 0,
    ;
    assert(2 * (r * k) == d * k <==> 2 * r == d) by (nonlinear_arith)
        requires
            k > 0,
    ;
}

proof fn lemma_low_scales(n: nat, d: nat, k: nat)
    requires
        n > 0,
        d > 0,
        k > 0,
    ensures
        single_low(n * k, d * k) == single_low(n, d),
    decreases (if n < 0x80_0000 * d {
        0x80_0000 * d - n
    } else {
        0
    }),
{
    assert(n * k > 0) by (nonlinear_arith)
        requires
            n > 0,
            k > 0,
    ;
    assert(n * k >= 0x80_0000 * (d * k) <==> n >= 0x80_0000 * d) by (nonlinear_arith)
        requires
            k > 0,
    ;
    if n >= 0x80_0000 * d {
        lemma_nearest_scales(n, d, k);
    } else {
        lemma_low_scales(2 * n, d, k);
        assert((2 * n) * k == 2 * (n * k)) by (nonlinear_arith);
    }
}

/// Three fifths, seventeen twentieths and nine tenths reach their levels, as
/// long as the numbers are exact in single precision.
pub proof fn law_exact_levels(k: u64)
    requires
        0 < k < 0xc_0000,
    ensures
        tone_of((3 * k) as u64, (5 * k) as u64) == Tone::Warn,
        tone_of((17 * k) as u64, (20 * k) as u64) == Tone::Bad,
        nearly_full((17 * k) as u64, (20 * k) as u64),
        critically_full((9 * k) as u64, (10 * k) as u64),
{
    let k = k as nat;
    lemma_low_scales(3, 5, k);
    lemma_low_scales(17, 20, k);
    lemma_low_scales(9, 10, k);
    reveal_with_fuel(single_low, 26);
    assert(single_low(3, 5) == (10_066_330nat, 0x100_0000nat));
    assert(single_low(17, 20) == (14_260_634nat, 0x100_0000nat));
    assert(single_low(9, 10) == (15_099_494nat, 0x100_0000nat));
}

} // verus!
