//! The colours of the two themes, and how sizes and durations are shown.

use vstd::prelude::*;
use vstd::string::*;

use crate::double::{double, double_high, law_nearest_even, lemma_exact, nearest_even};
use crate::number::{decimal, show, show_two, two_digits};

verus! {

/// A colour.
#[derive(Clone, Copy, Debug, PartialEq, Eq, Structural)]
pub struct Rgb {
    pub r: u8,
    pub g: u8,
    pub b: u8,
}

/// The colours of a theme.
#[derive(Clone, Copy, Debug, PartialEq, Eq, Structural)]
pub struct Palette {
    pub bg: Rgb,
    pub panel: Rgb,
    pub card: Rgb,
    pub card_hi: Rgb,
    pub track: Rgb,
    pub text: Rgb,
    pub muted: Rgb,
    pub faint: Rgb,
    pub accent: Rgb,
    pub cyan: Rgb,
    pub violet: Rgb,
    pub good: Rgb,
    pub warn: Rgb,
    pub bad: Rgb,
}

/// The colour of three components.
pub open spec fn rgb_of(r: u8, g: u8, b: u8) -> Rgb {
    Rgb { r, g, b }
}

pub fn rgb(r: u8, g: u8, b: u8) -> (c: Rgb)
    ensures
        c == rgb_of(r, g, b),
{
    Rgb { r, g, b }
}

/// The dark theme.
pub open spec fn dark_palette() -> Palette {
    Palette {
        bg: rgb_of(0x0e, 0x11, 0x17),
        panel: rgb_of(0x12, 0x16, 0x1f),
        card: rgb_of(0x18, 0x1d, 0x27),
        card_hi: rgb_of(0x20, 0x27, 0x33),
        track: rgb_of(0x2a, 0x31, 0x3f),
        text: rgb_of(0xe6, 0xe9, 0xef),
        muted: rgb_of(0x8b, 0x93, 0xa7),
        faint: rgb_of(0x5c, 0x64, 0x78),
        accent: rgb_of(0x60, 0xa5, 0xfa),
        cyan: rgb_of(0x34, 0xd3, 0x99),
        violet: rgb_of(0xa7, 0x8b, 0xfa),
        good: rgb_of(0x4a, 0xde, 0x80),
        warn: rgb_of(0xfb, 0xbf, 0x24),
        bad: rgb_of(0xf8, 0x71, 0x71),
    }
}

/// The light theme.
pub open spec fn light_palette() -> Palette {
    Palette {
        bg: rgb_of(0xf7, 0xf8, 0xfa),
        panel: rgb_of(0xff, 0xff, 0xff),
        card: rgb_of(0xff, 0xff, 0xff),
        card_hi: rgb_of(0xf0, 0xf2, 0xf6),
        track: rgb_of(0xe2, 0xe6, 0xee),
        text: rgb_of(0x10, 0x17, 0x25),
        muted: rgb_of(0x5b, 0x64, 0x78),
        faint: rgb_of(0x8a, 0x92, 0xa4),
        accent: rgb_of(0x25, 0x63, 0xeb),
        cyan: rgb_of(0x05, 0x96, 0x69),
        violet: rgb_of(0x7c, 0x3a, 0xed),
        good: rgb_of(0x16, 0xa3, 0x4a),
        warn: rgb_of(0xb4, 0x53, 0x09),
        bad: rgb_of(0xdc, 0x26, 0x26),
    }
}

impl Palette {
    pub fn dark() -> (r: Self)
        ensures
            r == dark_palette(),
    {
        Palette {
            bg: rgb(0x0e, 0x11, 0x17),
            panel: rgb(0x12, 0x16, 0x1f),
            card: rgb(0x18, 0x1d, 0x27),
            card_hi: rgb(0x20, 0x27, 0x33),
            track: rgb(0x2a, 0x31, 0x3f),
            text: rgb(0xe6, 0xe9, 0xef),
            muted: rgb(0x8b, 0x93, 0xa7),
            faint: rgb(0x5c, 0x64, 0x78),
            accent: rgb(0x60, 0xa5, 0xfa),
            cyan: rgb(0x34, 0xd3, 0x99),
            violet: rgb(0xa7, 0x8b, 0xfa),
            good: rgb(0x4a, 0xde, 0x80),
            warn: rgb(0xfb, 0xbf, 0x24),
            bad: rgb(0xf8, 0x71, 0x71),
        }
    }

    pub fn light() -> (r: Self)
        ensures
            r == light_palette(),
    {
        Palette {
            bg: rgb(0xf7, 0xf8, 0xfa),
            panel: rgb(0xff, 0xff, 0xff),
            card: rgb(0xff, 0xff, 0xff),
            card_hi: rgb(0xf0, 0xf2, 0xf6),
            track: rgb(0xe2, 0xe6, 0xee),
            text: rgb(0x10, 0x17, 0x25),
            muted: rgb(0x5b, 0x64, 0x78),
            faint: rgb(0x8a, 0x92, 0xa4),
            accent: rgb(0x25, 0x63, 0xeb),
            cyan: rgb(0x05, 0x96, 0x69),
            violet: rgb(0x7c, 0x3a, 0xed),
            good: rgb(0x16, 0xa3, 0x4a),
            warn: rgb(0xb4, 0x53, 0x09),
            bad: rgb(0xdc, 0x26, 0x26),
        }
    }

    /// Whether this is a light theme: one with dark text.
    pub fn is_light(&self) -> (r: bool)
        ensures
            r == (self.text.r < 128),
    {
        self.text.r < 128
    }
}

/// The two themes are told apart by their text.
pub proof fn law_palettes_differ()
    ensures
        dark_palette().text.r >= 128,
        light_palette().text.r < 128,
{
}

// --- sizes ------------------------------------------------------------------

/// The whole number that a 64-bit number becomes in double precision.
pub open spec fn as_double(b: nat) -> nat {
    double(b, 1).0 / double(b, 1).1
}

fn to_double(b: u64) -> (r: u128)
    ensures
        r == as_double(b as nat),
        b < 0x20_0000_0000_0000 ==> r == b,
        r <= 0x2_0000_0000_0000_0000,
{
    let wide: u128 = b as u128;
    if b < 0x20_0000_0000_0000 {
        proof {
            let k = b as nat;
            assert(k * 1 == k) by (nonlinear_arith);
            lemma_exact(k, 1);
            let (a, d) = double(k, 1);
            assert(a / d == k) by (nonlinear_arith)
                requires
                    a == k * d,
                    d > 0,
            ;
        }
        return wide;
    }
    let mut unit: u128 = 1;
    let ghost n = b as nat;
    assert(1 * double_high(n, 1).0 == double_high(n, 1).0) by (nonlinear_arith);
    while wide >= 0x20_0000_0000_0000 * unit
        invariant
            n == b == wide,
            n >= 0x20_0000_0000_0000,
            1 <= unit <= 0x1000,
            n >= 0x10_0000_0000_0000 * unit,
            double_high(n, 1).0 == unit * double_high(n, unit as nat).0,
            double_high(n, 1).1 == double_high(n, unit as nat).1,
        decreases n - unit,
    {
        proof {
            let (x, y) = double_high(n, 2 * unit as nat);
            assert(unit * (2 * x) == (2 * unit) * x) by (nonlinear_arith);
        }
        unit = unit * 2;
    }
    let q = wide / unit;
    let twice = 2 * (wide % unit);
    let m = if twice < unit || (twice == unit && q % 2 == 0) {
        q
    } else {
        q + 1
    };
    proof {
        assert(m == nearest_even(n, unit as nat));
        assert(double_high(n, unit as nat) == (m as nat, 1nat));
        assert(q < 0x20_0000_0000_0000) by (nonlinear_arith)
            requires
                q == wide / unit,
                wide < 0x20_0000_0000_0000 * unit,
                unit >= 1,
        ;
        assert(m * unit <= 0x20_0000_0000_0000 * 0x1000) by (nonlinear_arith)
            requires
                m <= 0x20_0000_0000_0000,
                unit <= 0x1000,
                m >= 0,
                unit >= 0,
        ;
        assert(unit * m == m * unit) by (nonlinear_arith);
        assert(double(n, 1) == double_high(n, 1));
        let (a, d) = double(n, 1);
        assert(a / d == a) by (nonlinear_arith)
            requires
                d == 1,
        ;
    }
    m * unit
}

/// The power of 1024 that a size is shown in: at most the fifth.
pub open spec fn unit_of(m: nat) -> (nat, Seq<char>) {
    if m < 0x10_0000 {
        (0x400, "KB"@)
    } else if m < 0x4000_0000 {
        (0x10_0000, "MB"@)
    } else if m < 0x100_0000_0000 {
        (0x4000_0000, "GB"@)
    } else if m < 0x4_0000_0000_0000 {
        (0x100_0000_0000, "TB"@)
    } else {
        (0x4_0000_0000_0000, "PB"@)
    }
}

/// A size as text: bytes below 1024, or else with one decimal in the largest
/// fitting unit. The size is taken in double precision and rounded to the
/// nearest tenth, the even one of two.
pub open spec fn bytes_text(b: nat) -> Seq<char> {
    if b < 1024 {
        decimal(b) + " B"@
    } else {
        let m = as_double(b);
        let (unit, name) = unit_of(m);
        let tenths = nearest_even(10 * m, unit);
        decimal(tenths / 10) + "."@ + decimal(tenths % 10) + " "@ + name
    }
}

/// Human-readable byte size, such as `12.4 GB`.
pub fn fmt_bytes(b: u64) -> (r: String)
    ensures
        r@ == bytes_text(b as nat),
{
    if b < 1024 {
        let mut s = show(b);
        s.append(" B");
        return s;
    }
    let m = to_double(b);
    let (unit, name): (u128, &str) = if m < 0x10_0000 {
        (0x400, "KB")
    } else if m < 0x4000_0000 {
        (0x10_0000, "MB")
    } else if m < 0x100_0000_0000 {
        (0x4000_0000, "GB")
    } else if m < 0x4_0000_0000_0000 {
        (0x100_0000_0000, "TB")
    } else {
        (0x4_0000_0000_0000, "PB")
    };
    let q = 10 * m / unit;
    let twice = 2 * (10 * m % unit);
    assert(q <= 0x100_0000_0000_0000) by {
        assert(q <= 10 * m / 0x400) by (nonlinear_arith)
            requires
                q == 10 * m / unit as int,
                unit >= 0x400,
                m >= 0,
        ;
    }
    let tenths: u64 = if twice < unit || (twice == unit && q % 2 == 0) {
        q as u64
    } else {
        q as u64 + 1
    };
    assert(tenths == nearest_even((10 * m) as nat, unit as nat));
    let mut s = show(tenths / 10);
    s.append(".");
    let d = show(tenths % 10);
    s.append(d.as_str());
    s.append(" ");
    s.append(name);
    s
}

/// Human-readable transfer rate of some bytes per second, such as `3.2 MB/s`.
pub fn fmt_rate(bytes_per_sec: u64) -> (r: String)
    ensures
        r@ == bytes_text(bytes_per_sec as nat) + "/s"@,
{
    let mut s = fmt_bytes(bytes_per_sec);
    s.append("/s");
    s
}

/// A duration as days, if any, hours and minutes.
pub open spec fn uptime_text(secs: nat) -> Seq<char> {
    let clock = two_digits(secs % 86_400 / 3_600) + ":"@ + two_digits(secs % 3_600 / 60);
    if secs >= 86_400 {
        decimal(secs / 86_400) + "d "@ + clock
    } else {
        clock
    }
}

/// Uptime as `3d 04:12`.
pub fn fmt_uptime(secs: u64) -> (r: String)
    ensures
        r@ == uptime_text(secs as nat),
{
    let d = secs / 86_400;
    let h = (secs % 86_400) / 3_600;
    let m = (secs % 3_600) / 60;
    let mut s = String::new();
    if d > 0 {
        let days = show(d);
        s.append(days.as_str());
        s.append("d ");
    }
    let hours = show_two(h);
    let minutes = show_two(m);
    s.append(hours.as_str());
    s.append(":");
    s.append(minutes.as_str());
    assert(s@ =~= uptime_text(secs as nat));
    s
}

/// What an uptime shows lies less than a minute below the uptime.
pub proof fn law_uptime_parts(secs: nat)
    ensures
        ({
            let shown = secs / 86_400 * 86_400 + secs % 86_400 / 3_600 * 3_600 + secs % 3_600 / 60
                * 60;
            shown <= secs < shown + 60
        }),
{
    let r = secs % 86_400;
    let q = secs % 3_600;
    vstd::arithmetic::div_mod::lemma_mod_mod(secs as int, 3_600, 24);
    assert(r % 3_600 == q);
    assert(secs == secs / 86_400 * 86_400 + r);
    assert(r == r / 3_600 * 3_600 + q);
    assert(q / 60 * 60 <= q < q / 60 * 60 + 60);
}

/// A whole number of at most 53 bits is its own double.
pub proof fn law_as_double(b: nat)
    requires
        b < 0x20_0000_0000_0000,
    ensures
        as_double(b) == b,
{
    lemma_exact(b, 1);
    let (p, q) = double(b, 1);
    assert(b * 1 == b) by (nonlinear_arith);
    assert((b * q) / q == b) by (nonlinear_arith)
        requires
            q > 0,
    ;
}

/// A size below 1024 is shown in bytes. A larger one is shown in the largest
/// unit that it reaches, with one decimal, at most half a tenth away from what
/// it is; of two tenths as near, the even one.
pub proof fn law_bytes_text(b: nat)
    requires
        b < 0x20_0000_0000_0000,
    ensures
        b < 1024 ==> bytes_text(b) == decimal(b) + " B"@,
        b >= 1024 ==> ({
            let (unit, name) = if b < 1024 * 1024 {
                (1024nat, "KB"@)
            } else if b < 1024 * 1024 * 1024 {
                (1024 * 1024, "MB"@)
            } else if b < 1024 * 1024 * 1024 * 1024 {
                (1024 * 1024 * 1024, "GB"@)
            } else if b < 1024 * 1024 * 1024 * 1024 * 1024 {
                (1024 * 1024 * 1024 * 1024, "TB"@)
            } else {
                (1024 * 1024 * 1024 * 1024 * 1024, "PB"@)
            };
            exists|tenths: nat|
                {
                    &&& bytes_text(b) == #[trigger] decimal(tenths / 10) + "."@ + decimal(
                        tenths % 10,
                    ) + " "@ + name
                    &&& 2 * (tenths * unit) <= 20 * b + unit
                    &&& 20 * b <= 2 * (tenths * unit) + unit
                    &&& 2 * (tenths * unit) == 20 * b + unit || 20 * b == 2 * (tenths * unit) + unit
                        ==> tenths % 2 == 0
                }
        }),
{
    if b >= 1024 {
        law_as_double(b);
        let (unit, name) = unit_of(b);
        let tenths = nearest_even(10 * b, unit);
        law_nearest_even(10 * b, unit);
        assert(bytes_text(b) == decimal(tenths / 10) + "."@ + decimal(tenths % 10) + " "@ + name);
    }
}

/// Days where there are any, then hours and minutes of two digits each.
pub proof fn law_uptime_text(days: nat, hours: nat, minutes: nat, seconds: nat)
    requires
        hours < 24,
        minutes < 60,
        seconds < 60,
    ensures
        days == 0 ==> uptime_text(days * 86_400 + hours * 3_600 + minutes * 60 + seconds)
            == two_digits(hours) + ":"@ + two_digits(minutes),
        days > 0 ==> uptime_text(days * 86_400 + hours * 3_600 + minutes * 60 + seconds) == decimal(
            days,
        ) + "d "@ + (two_digits(hours) + ":"@ + two_digits(minutes)),
{
    let s = days * 86_400 + hours * 3_600 + minutes * 60 + seconds;
    let r = hours * 3_600 + minutes * 60 + seconds;
    assert(s % 86_400 == r && s / 86_400 == days) by (nonlinear_arith)
        requires
            s == days * 86_400 + r,
            r < 86_400,
    ;
    assert(r / 3_600 == hours && r % 3_600 == minutes * 60 + seconds) by (nonlinear_arith)
        requires
            r == hours * 3_600 + (minutes * 60 + seconds),
            minutes * 60 + seconds < 3_600,
    ;
    assert(s % 3_600 == minutes * 60 + seconds) by (nonlinear_arith)
        requires
            s == (days * 24 + hours) * 3_600 + (minutes * 60 + seconds),
            minutes * 60 + seconds < 3_600,
    ;
}

/// The colours of both themes.
pub proof fn law_palettes()
    ensures
        dark_palette().bg == (Rgb { r: 0x0e, g: 0x11, b: 0x17 }),
        dark_palette().panel == (Rgb { r: 0x12, g: 0x16, b: 0x1f }),
        dark_palette().card == (Rgb { r: 0x18, g: 0x1d, b: 0x27 }),
        dark_palette().card_hi == (Rgb { r: 0x20, g: 0x27, b: 0x33 }),
        dark_palette().track == (Rgb { r: 0x2a, g: 0x31, b: 0x3f }),
        dark_palette().text == (Rgb { r: 0xe6, g: 0xe9, b: 0xef }),
        dark_palette().muted == (Rgb { r: 0x8b, g: 0x93, b: 0xa7 }),
        dark_palette().faint == (Rgb { r: 0x5c, g: 0x64, b: 0x78 }),
        dark_palette().accent == (Rgb { r: 0x60, g: 0xa5, b: 0xfa }),
        dark_palette().cyan == (Rgb { r: 0x34, g: 0xd3, b: 0x99 }),
        dark_palette().violet == (Rgb { r: 0xa7, g: 0x8b, b: 0xfa }),
        dark_palette().good == (Rgb { r: 0x4a, g: 0xde, b: 0x80 }),
        dark_palette().warn == (Rgb { r: 0xfb, g: 0xbf, b: 0x24 }),
        dark_palette().bad == (Rgb { r: 0xf8, g: 0x71, b: 0x71 }),
        light_palette().bg == (Rgb { r: 0xf7, g: 0xf8, b: 0xfa }),
        light_palette().panel == (Rgb { r: 0xff, g: 0xff, b: 0xff }),
        light_palette().card == (Rgb { r: 0xff, g: 0xff, b: 0xff }),
        light_palette().card_hi == (Rgb { r: 0xf0, g: 0xf2, b: 0xf6 }),
        light_palette().track == (Rgb { r: 0xe2, g: 0xe6, b: 0xee }),
        light_palette().text == (Rgb { r: 0x10, g: 0x17, b: 0x25 }),
        light_palette().muted == (Rgb { r: 0x5b, g: 0x64, b: 0x78 }),
        light_palette().faint == (Rgb { r: 0x8a, g: 0x92, b: 0xa4 }),
        light_palette().accent == (Rgb { r: 0x25, g: 0x63, b: 0xeb }),
        light_palette().cyan == (Rgb { r: 0x05, g: 0x96, b: 0x69 }),
        light_palette().violet == (Rgb { r: 0x7c, g: 0x3a, b: 0xed }),
        light_palette().good == (Rgb { r: 0x16, g: 0xa3, b: 0x4a }),
        light_palette().warn == (Rgb { r: 0xb4, g: 0x53, b: 0x09 }),
        light_palette().bad == (Rgb { r: 0xdc, g: 0x26, b: 0x26 }),
{
}

} // verus!
