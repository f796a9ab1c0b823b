//! Sizes as tools print them: a decimal number with a unit.
//!
//! The number is read and multiplied in double precision, as its printers
//! computed it.

use vstd::prelude::*;
use vstd::string::*;

use crate::big::Big;
use crate::double::{lemma_product_exact, lemma_product_huge, lemma_product_tiny, multiply, product};
use crate::number::{all_digits, value_of};
use crate::text::{
    digit, field, field_of, folded, folded_char, is_digit, is_text, law_affixes, law_words,
    spaceless, strip_suffix, to_chars, without_suffix, words, words_of,
};

verus! {

/// `10^n`.
pub open spec fn ten(n: nat) -> nat
    decreases n,
{
    if n == 0 {
        1
    } else {
        10 * ten((n - 1) as nat)
    }
}

/// Where the exponent mark of a decimal number stands, or its length.
pub open spec fn mark_at(s: Seq<char>) -> nat
    decreases s.len(),
{
    if s.len() == 0 || s[0] == 'e' || s[0] == 'E' {
        0
    } else {
        1 + mark_at(s.skip(1))
    }
}

/// Where the point of a decimal number stands, or its length.
pub open spec fn point_at(s: Seq<char>) -> nat
    decreases s.len(),
{
    if s.len() == 0 || s[0] == '.' {
        0
    } else {
        1 + point_at(s.skip(1))
    }
}

/// The digits after an optional sign.
pub open spec fn unsigned_part(s: Seq<char>) -> Seq<char> {
    if s.len() > 0 && (s[0] == '+' || s[0] == '-') {
        s.skip(1)
    } else {
        s
    }
}

/// Whether a sign says that the number is negative.
pub open spec fn negative(s: Seq<char>) -> bool {
    s.len() > 0 && s[0] == '-'
}

/// The exponent that a text spells: digits after an optional sign.
pub open spec fn exponent_of(s: Seq<char>) -> Option<int> {
    let body = unsigned_part(s);
    if body.len() == 0 || !all_digits(body) {
        None
    } else if negative(s) {
        Some(-(value_of(body) as int))
    } else {
        Some(value_of(body) as int)
    }
}

/// The digits of a mantissa and how many of them follow its point.
pub open spec fn mantissa_of(s: Seq<char>) -> Option<(Seq<char>, nat)> {
    let p = point_at(s) as int;
    let front = s.take(p);
    let back = if p < s.len() {
        s.skip(p + 1)
    } else {
        Seq::empty()
    };
    if all_digits(front + back) && (front + back).len() > 0 {
        Some((front + back, back.len()))
    } else {
        None
    }
}

/// The unsigned decimal number that a text spells: its digits, and the power
/// of ten that they are multiplied by.
pub open spec fn decimal_of(s: Seq<char>) -> Option<(Seq<char>, int)> {
    let k = mark_at(s) as int;
    match mantissa_of(s.take(k)) {
        None => None,
        Some((digits, places)) => if k == s.len() {
            Some((digits, -(places as int)))
        } else {
            match exponent_of(s.skip(k + 1)) {
                None => None,
                Some(e) => Some((digits, e - places)),
            }
        },
    }
}

/// `n * 10^scale * factor` in double precision, as a whole number.
pub open spec fn scaled(n: nat, scale: int, factor: nat) -> u64 {
    if scale >= 0 {
        product(n * ten(scale as nat), 1, factor)
    } else {
        product(n, ten((-scale) as nat), factor)
    }
}

/// Whether a text spells a word, whatever the case of its letters.
pub open spec fn spells(s: Seq<char>, word: Seq<char>) -> bool {
    s.len() == word.len() && forall|i: int|
        0 <= i < s.len() ==> folded_char(#[trigger] s[i]) == word[i]
}

/// The number that a text spells times `factor`, as a whole number: zero when
/// it spells none or a negative one, the largest when it spells infinity.
pub open spec fn amount_of(s: Seq<char>, factor: nat) -> u64 {
    let body = unsigned_part(s);
    if negative(s) {
        0
    } else if spells(body, "inf"@) || spells(body, "infinity"@) {
        u64::MAX
    } else {
        match decimal_of(body) {
            Some((digits, scale)) => scaled(value_of(digits), scale, factor),
            None => 0,
        }
    }
}

// --- powers of ten ----------------------------------------------------------

proof fn lemma_ten_adds(a: nat, b: nat)
    ensures
        ten(a + b) == ten(a) * ten(b),
        ten(a) >= 1,
    decreases a,
{
    if a > 0 {
        lemma_ten_adds((a - 1) as nat, b);
        assert((10 * ten((a - 1) as nat)) * ten(b) == 10 * (ten((a - 1) as nat) * ten(b)))
            by (nonlinear_arith);
    } else {
        assert(1 * ten(b) == ten(b)) by (nonlinear_arith);
    }
}

proof fn lemma_ten_grows(a: nat, b: nat)
    requires
        a <= b,
    ensures
        ten(a) <= ten(b),
    decreases b,
{
    if a < b {
        lemma_ten_grows(a, (b - 1) as nat);
        lemma_ten_adds((b - 1) as nat, 0);
    }
}

proof fn lemma_ten_values()
    ensures
        ten(10) == 10_000_000_000,
        ten(20) == 100_000_000_000_000_000_000,
{
    reveal_with_fuel(ten, 11);
    assert(ten(10) == 10_000_000_000);
    lemma_ten_adds(10, 10);
}

/// A number of `n` digits lies below `10^n`, and at `10^(n-1)` or above when
/// its first digit is not zero.
proof fn lemma_digits_bound(s: Seq<char>)
    requires
        all_digits(s),
    ensures
        value_of(s) < ten(s.len()),
        s.len() > 0 && s[0] != '0' ==> value_of(s) >= ten((s.len() - 1) as nat),
    decreases s.len(),
{
    if s.len() > 0 {
        let t = s.drop_last();
        assert forall|i: int| 0 <= i < t.len() implies is_digit(#[trigger] t[i]) by {
            assert(t[i] == s[i]);
        }
        lemma_digits_bound(t);
        assert(is_digit(s.last()));
        if s.len() == 1 {
            assert(value_of(t) == 0);
            assert(s.last() == s[0]);
        } else {
            assert(t[0] == s[0]);
        }
    }
}

// --- reading ----------------------------------------------------------------

fn find_mark(s: &[char]) -> (r: usize)
    ensures
        r == mark_at(s@),
        r <= s@.len(),
{
    let mut i: usize = 0;
    assert(s@.skip(0) =~= s@);
    while i < s.len() && s[i] != 'e' && s[i] != 'E'
        invariant
            i <= s@.len(),
            mark_at(s@) == i + mark_at(s@.skip(i as int)),
        decreases s@.len() - i,
    {
        assert(s@.skip(i as int).skip(1) =~= s@.skip(i as int + 1));
        i += 1;
    }
    i
}

fn find_point(s: &[char]) -> (r: usize)
    ensures
        r == point_at(s@),
        r <= s@.len(),
{
    let mut i: usize = 0;
    assert(s@.skip(0) =~= s@);
    while i < s.len() && s[i] != '.'
        invariant
            i <= s@.len(),
            point_at(s@) == i + point_at(s@.skip(i as int)),
        decreases s@.len() - i,
    {
        assert(s@.skip(i as int).skip(1) =~= s@.skip(i as int + 1));
        i += 1;
    }
    i
}

fn strip_sign<'a>(s: &'a [char]) -> (r: &'a [char])
    ensures
        r@ == unsigned_part(s@),
{
    if s.len() > 0 && (s[0] == '+' || s[0] == '-') {
        vstd::slice::slice_subrange(s, 1, s.len())
    } else {
        s
    }
}

fn digits_only(s: &[char]) -> (r: bool)
    ensures
        r == all_digits(s@),
{
    let mut i: usize = 0;
    while i < s.len()
        invariant
            i <= s@.len(),
            forall|k: int| 0 <= k < i ==> is_digit(#[trigger] s@[k]),
        decreases s@.len() - i,
    {
        if !digit(s[i]) {
            return false;
        }
        i += 1;
    }
    true
}

/// Exponents beyond this are read as this.
const FAR: u128 = 1_000_000_000_000_000_000_000_000_000_000;

spec fn capped(e: nat) -> nat {
    if e < FAR {
        e
    } else {
        FAR as nat
    }
}

fn read_exponent(s: &[char]) -> (r: Option<u128>)
    ensures
        r is Some <==> exponent_of(s@) is Some,
        r matches Some(v) ==> v == capped(value_of(unsigned_part(s@))),
{
    let body = strip_sign(s);
    if body.len() == 0 || !digits_only(body) {
        return None;
    }
    let mut v: u128 = 0;
    let mut i: usize = 0;
    assert(body@.take(0).len() == 0);
    assert(value_of(body@.take(0)) == 0);
    while i < body.len()
        invariant
            i <= body@.len(),
            all_digits(body@),
            v == capped(value_of(body@.take(i as int))),
        decreases body@.len() - i,
    {
        assert(is_digit(body@[i as int]));
        let d: u128 = (body[i] as u32 - '0' as u32) as u128;
        assert(body@.take(i as int + 1).drop_last() =~= body@.take(i as int));
        v = if v * 10 + d < FAR {
            v * 10 + d
        } else {
            FAR
        };
        i += 1;
    }
    assert(body@.take(i as int) =~= body@);
    Some(v)
}

/// The digits of a mantissa without leading zeros.
fn significant(front: &[char], back: &[char]) -> (r: Vec<char>)
    requires
        all_digits(front@ + back@),
    ensures
        all_digits(r@),
        value_of(r@) == value_of(front@ + back@),
        r@.len() > 0 ==> r@[0] != '0',
{
    let ghost all = front@ + back@;
    let n = front.len();
    let mut out: Vec<char> = Vec::new();
    let mut i: usize = 0;
    assert(all.take(0).len() == 0);
    assert(value_of(all.take(0)) == 0);
    while i < n
        invariant
            i <= n == front@.len(),
            all == front@ + back@,
            all_digits(all),
            all_digits(out@),
            value_of(out@) == value_of(all.take(i as int)),
            out@.len() > 0 ==> out@[0] != '0',
        decreases n - i,
    {
        let c = front[i];
        assert(c == all[i as int]);
        assert(all.take(i as int + 1).drop_last() =~= all.take(i as int));
        assert(out@.push(c).drop_last() =~= out@);
        assert(is_digit(c));
        if c != '0' || out.len() > 0 {
            out.push(c);
        } else {
            assert(value_of(out@) == 0);
        }
        i += 1;
    }
    let mut j: usize = 0;
    while j < back.len()
        invariant
            n == front@.len(),
            j <= back@.len(),
            all == front@ + back@,
            all_digits(all),
            all_digits(out@),
            value_of(out@) == value_of(all.take(n + j as int)),
            out@.len() > 0 ==> out@[0] != '0',
        decreases back@.len() - j,
    {
        let c = back[j];
        assert(c == all[n + j as int]);
        assert(all.take(n + j as int + 1).drop_last() =~= all.take(n + j as int));
        assert(out@.push(c).drop_last() =~= out@);
        assert(is_digit(c));
        if c != '0' || out.len() > 0 {
            out.push(c);
        } else {
            assert(value_of(out@) == 0);
        }
        j += 1;
    }
    assert(all.take(n + j as int) =~= all);
    out
}

fn number(digits: &[char]) -> (r: Big)
    requires
        all_digits(digits@),
    ensures
        r@ == value_of(digits@),
{
    let mut v = Big::small(0);
    let mut i: usize = 0;
    assert(digits@.take(0).len() == 0);
    while i < digits.len()
        invariant
            i <= digits@.len(),
            all_digits(digits@),
            v@ == value_of(digits@.take(i as int)),
        decreases digits@.len() - i,
    {
        assert(is_digit(digits@[i as int]));
        let d: u32 = digits[i] as u32 - '0' as u32;
        assert(digits@.take(i as int + 1).drop_last() =~= digits@.take(i as int));
        v = v.times(10, d);
        i += 1;
    }
    assert(digits@.take(i as int) =~= digits@);
    v
}

fn times_ten(n: Big, k: u128) -> (r: Big)
    ensures
        r@ == n@ * ten(k as nat),
{
    let mut v = n;
    let ghost start = n@;
    let mut i: u128 = 0;
    assert(start * 1 == start) by (nonlinear_arith);
    while i < k
        invariant
            i <= k,
            v@ == start * ten(i as nat),
        decreases k - i,
    {
        v = v.times(10, 0);
        assert((start * ten(i as nat)) * 10 == start * (10 * ten(i as nat))) by (nonlinear_arith);
        i += 1;
    }
    v
}

proof fn lemma_far_above(v: nat, n: nat, scale: int, factor: nat)
    requires
        n > 0,
        v >= ten((n - 1) as nat),
        n - 1 + scale >= 20,
        factor >= 1,
    ensures
        scaled(v, scale, factor) == u64::MAX,
{
    lemma_ten_values();
    if scale >= 0 {
        let t = ten(scale as nat);
        lemma_ten_adds((n - 1) as nat, scale as nat);
        lemma_ten_adds(scale as nat, 0);
        lemma_ten_grows(20, (n - 1 + scale) as nat);
        assert(v * t >= ten((n - 1) as nat) * t) by (nonlinear_arith)
            requires
                v >= ten((n - 1) as nat),
        ;
        lemma_product_huge(v * t, 1, factor);
    } else {
        let t = ten((-scale) as nat);
        lemma_ten_adds(20, (-scale) as nat);
        lemma_ten_adds((-scale) as nat, 0);
        lemma_ten_grows((20 - scale) as nat, (n - 1) as nat);
        assert(v >= 0x4_0000_0000_0000_0000 * t) by (nonlinear_arith)
            requires
                v >= 100_000_000_000_000_000_000 * t,
                t >= 1,
        ;
        lemma_product_huge(v, t, factor);
    }
}

proof fn lemma_far_below(v: nat, n: nat, scale: int, factor: nat)
    requires
        v < ten(n),
        n + scale <= -10,
        factor <= 0x4000_0000,
    ensures
        scaled(v, scale, factor) == 0,
{
    lemma_ten_values();
    let t = ten((-scale) as nat);
    lemma_ten_adds(n, 10);
    lemma_ten_adds((-scale) as nat, 0);
    lemma_ten_grows(n + 10, (-scale) as nat);
    lemma_product_tiny(v, t, factor);
}

/// The exponent with its sign.
spec fn signed(minus: bool, e: nat) -> int {
    if minus {
        -(e as int)
    } else {
        e as int
    }
}

/// Multiplies the number of some digits, scaled by a power of ten.
fn scale_by(digits: &[char], minus: bool, exponent: u128, places: usize, factor: u32) -> (r: u64)
    requires
        all_digits(digits@),
        digits@.len() > 0 ==> digits@[0] != '0',
        1 <= factor <= 0x4000_0000,
        exponent <= FAR,
    ensures
        forall|e: nat|
            #[trigger] capped(e) == exponent ==> r == scaled(
                value_of(digits@),
                signed(minus, e) - places,
                factor as nat,
            ),
{
    let n = digits.len();
    let ghost v = value_of(digits@);
    proof {
        lemma_digits_bound(digits@);
    }
    let scale: i128 = if minus {
        -(exponent as i128) - places as i128
    } else {
        exponent as i128 - places as i128
    };
    if n == 0 {
        proof {
            assert forall|e: nat| #[trigger] capped(e) == exponent implies scaled(
                v,
                signed(minus, e) - places,
                factor as nat,
            ) == 0 by {
                let s = signed(minus, e) - places;
                if s >= 0 {
                    assert(0 * ten(s as nat) == 0) by (nonlinear_arith);
                    lemma_product_tiny(0, 1, factor as nat);
                } else {
                    lemma_ten_adds((-s) as nat, 0);
                    lemma_product_tiny(0, ten((-s) as nat), factor as nat);
                }
            }
        }
        return 0;
    }
    if n as i128 - 1 + scale >= 20 {
        proof {
            assert forall|e: nat| #[trigger] capped(e) == exponent implies scaled(
                v,
                signed(minus, e) - places,
                factor as nat,
            ) == u64::MAX by {
                lemma_far_above(v, n as nat, signed(minus, e) - places, factor as nat);
            }
        }
        return u64::MAX;
    }
    if n as i128 + scale <= -10 {
        proof {
            assert forall|e: nat| #[trigger] capped(e) == exponent implies scaled(
                v,
                signed(minus, e) - places,
                factor as nat,
            ) == 0 by {
                lemma_far_below(v, n as nat, signed(minus, e) - places, factor as nat);
            }
        }
        return 0;
    }
    assert(exponent < FAR);
    let whole = number(digits);
    if scale >= 0 {
        multiply(times_ten(whole, scale as u128), Big::small(1), factor)
    } else {
        let one = Big::small(1);
        let down = times_ten(one, (-scale) as u128);
        proof {
            lemma_ten_adds((-scale) as nat, 0);
            assert(1 * ten((-scale) as nat) == ten((-scale) as nat)) by (nonlinear_arith);
        }
        multiply(whole, down, factor)
    }
}

fn spelled(s: &[char], word: &str) -> (r: bool)
    ensures
        r == spells(s@, word@),
{
    let w = to_chars(word);
    if s.len() != w.len() {
        return false;
    }
    let mut i: usize = 0;
    while i < s.len()
        invariant
            i <= s@.len() == w@.len(),
            w@ == word@,
            forall|k: int| 0 <= k < i ==> folded_char(#[trigger] s@[k]) == w@[k],
        decreases s@.len() - i,
    {
        let c = s[i];
        let f = if 'A' <= c && c <= 'Z' {
            ((c as u8) + 32) as char
        } else {
            c
        };
        if f != w[i] {
            return false;
        }
        i += 1;
    }
    true
}

/// Reads the number that a text spells times a factor, as a whole number.
pub fn amount(s: &[char], factor: u32) -> (r: u64)
    requires
        1 <= factor <= 0x4000_0000,
    ensures
        r == amount_of(s@, factor as nat),
{
    if s.len() > 0 && s[0] == '-' {
        return 0;
    }
    let body = strip_sign(s);
    if spelled(body, "inf") || spelled(body, "infinity") {
        return u64::MAX;
    }
    let n = body.len();
    let k = find_mark(body);
    let head = vstd::slice::slice_subrange(body, 0, k);
    assert(head@ =~= body@.take(k as int));
    let p = find_point(head);
    let front = vstd::slice::slice_subrange(head, 0, p);
    let back = if p < k {
        vstd::slice::slice_subrange(head, p + 1, k)
    } else {
        vstd::slice::slice_subrange(head, 0, 0)
    };
    let places = back.len();
    assert(front@ =~= head@.take(p as int));
    assert(back@ =~= if p < head@.len() {
        head@.skip(p as int + 1)
    } else {
        Seq::empty()
    });
    proof {
        lemma_both_digits(front@, back@);
    }
    if !(digits_only(front) && digits_only(back)) || (front.len() == 0 && back.len() == 0) {
        return 0;
    }
    let digits = significant(front, back);
    if k == n {
        assert(capped(0) == 0);
        scale_by(&digits, false, 0, places, factor)
    } else {
        let tail = vstd::slice::slice_subrange(body, k + 1, n);
        assert(tail@ =~= body@.skip(k as int + 1));
        match read_exponent(tail) {
            None => 0,
            Some(e) => {
                let minus = tail.len() > 0 && tail[0] == '-';
                scale_by(&digits, minus, e, places, factor)
            },
        }
    }
}

proof fn lemma_both_digits(a: Seq<char>, b: Seq<char>)
    ensures
        all_digits(a + b) <==> all_digits(a) && all_digits(b),
{
    if all_digits(a + b) {
        assert forall|i: int| 0 <= i < a.len() implies is_digit(#[trigger] a[i]) by {
            assert((a + b)[i] == a[i]);
        }
        assert forall|i: int| 0 <= i < b.len() implies is_digit(#[trigger] b[i]) by {
            assert((a + b)[a.len() + i] == b[i]);
        }
    }
}

// --- units ------------------------------------------------------------------

/// How many bytes a decimal unit stands for; an unknown one stands for one.
pub open spec fn unit_bytes(unit: Seq<char>) -> nat {
    if unit == "kB"@ || unit == "KB"@ {
        1_000
    } else if unit == "MB"@ {
        1_000_000
    } else if unit == "GB"@ {
        1_000_000_000
    } else {
        1
    }
}

/// The bytes that a number and a decimal unit stand for: `1.5 GB`.
pub open spec fn size_unit_of(s: Seq<char>) -> u64 {
    amount_of(field_of(words_of(s), 0), unit_bytes(field_of(words_of(s), 1)))
}

/// Reads a size in slices.
pub fn size_unit(s: &[char]) -> (r: u64)
    ensures
        r == size_unit_of(s@),
{
    let w = words(s);
    let unit = field(&w, 1);
    let factor: u32 = if is_text(unit, "kB") || is_text(unit, "KB") {
        1_000
    } else if is_text(unit, "MB") {
        1_000_000
    } else if is_text(unit, "GB") {
        1_000_000_000
    } else {
        1
    };
    amount(field(&w, 0), factor)
}

/// A text without the full stops at its end.
pub open spec fn without_stops(s: Seq<char>) -> Seq<char>
    decreases s.len(),
{
    if s.len() > 0 && s.last() == '.' {
        without_stops(s.drop_last())
    } else {
        s
    }
}

/// The bytes that a number with a binary unit at its end stands for: `1.2G`.
/// Without a unit, nothing.
pub open spec fn compact_size_of(tok: Seq<char>) -> u64 {
    let s = without_stops(tok);
    match without_suffix(s, "G"@) {
        Some(n) => amount_of(n, 0x4000_0000),
        None => match without_suffix(s, "M"@) {
            Some(n) => amount_of(n, 0x10_0000),
            None => match without_suffix(s, "K"@) {
                Some(n) => amount_of(n, 0x400),
                None => match without_suffix(s, "B"@) {
                    Some(n) => amount_of(n, 1),
                    None => 0,
                },
            },
        },
    }
}

/// Reads a compact size in slices.
pub fn compact_size(tok: &[char]) -> (r: u64)
    ensures
        r == compact_size_of(tok@),
{
    let mut n: usize = tok.len();
    assert(tok@.take(n as int) =~= tok@);
    while n > 0 && tok[n - 1] == '.'
        invariant
            n <= tok@.len(),
            without_stops(tok@) == without_stops(tok@.take(n as int)),
        decreases n,
    {
        assert(tok@.take(n as int).drop_last() =~= tok@.take(n as int - 1));
        n -= 1;
    }
    let s = vstd::slice::slice_subrange(tok, 0, n);
    assert(s@ =~= tok@.take(n as int));
    assert(s@ == without_stops(tok@));
    if let Some(v) = strip_suffix(s, "G") {
        return amount(v, 0x4000_0000);
    }
    if let Some(v) = strip_suffix(s, "M") {
        return amount(v, 0x10_0000);
    }
    if let Some(v) = strip_suffix(s, "K") {
        return amount(v, 0x400);
    }
    if let Some(v) = strip_suffix(s, "B") {
        return amount(v, 1);
    }
    0
}

// --- whole numbers ----------------------------------------------------------

proof fn lemma_plain_digits(s: Seq<char>)
    requires
        all_digits(s),
    ensures
        mark_at(s) == s.len(),
        point_at(s) == s.len(),
    decreases s.len(),
{
    if s.len() > 0 {
        assert(is_digit(s[0]));
        assert forall|i: int| 0 <= i < s.skip(1).len() implies is_digit(#[trigger] s.skip(1)[i]) by {
            assert(s.skip(1)[i] == s[i + 1]);
        }
        lemma_plain_digits(s.skip(1));
    }
}

/// A whole number whose product with the unit has at most 53 bits is read
/// without any rounding.
pub proof fn law_whole_amount(s: Seq<char>, factor: nat)
    requires
        s.len() > 0,
        all_digits(s),
        value_of(s) * factor < 0x20_0000_0000_0000,
        factor >= 1,
    ensures
        amount_of(s, factor) == value_of(s) * factor,
{
    let v = value_of(s);
    lemma_plain_digits(s);
    assert(is_digit(s[0]));
    assert(unsigned_part(s) == s);
    reveal_strlit("inf");
    reveal_strlit("infinity");
    assert(folded_char(s[0]) == s[0]);
    assert(!spells(s, "inf"@) && !spells(s, "infinity"@));
    assert(s.take(s.len() as int) =~= s);
    assert(s + Seq::<char>::empty() =~= s);
    assert(decimal_of(s) == Some((s, 0int)));
    assert(ten(0) == 1);
    assert(v * 1 == v) by (nonlinear_arith);
    assert(v <= v * factor) by (nonlinear_arith)
        requires
            factor >= 1,
            v >= 0,
    ;
    lemma_product_exact(v, factor);
}

// --- what a size must satisfy -----------------------------------------------

/// The powers of ten.
pub proof fn law_ten(n: nat)
    ensures
        ten(0) == 1,
        ten(n + 1) == 10 * ten(n),
{
}

/// The decimal units; any other word stands for a byte.
pub proof fn law_unit_bytes(unit: Seq<char>)
    ensures
        unit_bytes("kB"@) == 1_000,
        unit_bytes("KB"@) == 1_000,
        unit_bytes("MB"@) == 1_000_000,
        unit_bytes("GB"@) == 1_000_000_000,
        unit != "kB"@ && unit != "KB"@ && unit != "MB"@ && unit != "GB"@ ==> unit_bytes(unit) == 1,
{
    reveal_strlit("kB");
    reveal_strlit("KB");
    reveal_strlit("MB");
    reveal_strlit("GB");
    assert("kB"@[0] == 'k' && "KB"@[0] == 'K' && "MB"@[0] == 'M' && "GB"@[0] == 'G');
}

/// A size is read as its first word times the unit that its second word is.
pub proof fn law_size_words(number: Seq<char>, unit: Seq<char>)
    requires
        number.len() > 0 && spaceless(number),
        unit.len() > 0 && spaceless(unit),
    ensures
        size_unit_of(number + " "@ + unit) == amount_of(number, unit_bytes(unit)),
        size_unit_of(number) == amount_of(number, 1),
{
    reveal_strlit(" ");
    let none = Seq::<char>::empty();
    law_words(" "@, unit, none);
    law_words(none, number, " "@ + unit);
    law_words(none, number, none);
    assert(" "@ + unit + none =~= " "@ + unit);
    assert(none + number + (" "@ + unit) =~= number + " "@ + unit);
    assert(none + number + none =~= number);
    assert(words_of(none).len() == 0);
    law_unit_bytes(none);
    reveal_strlit("kB");
    reveal_strlit("KB");
    reveal_strlit("MB");
    reveal_strlit("GB");
    assert("kB"@.len() == 2 && "KB"@.len() == 2 && "MB"@.len() == 2 && "GB"@.len() == 2);
}

/// A compact size ends in its binary unit, with any full stops behind it;
/// without a unit it is nothing.
pub proof fn law_compact_size(number: Seq<char>, tok: Seq<char>)
    ensures
        compact_size_of(number + seq!['G']) == amount_of(number, 1024 * 1024 * 1024),
        compact_size_of(number + seq!['M']) == amount_of(number, 1024 * 1024),
        compact_size_of(number + seq!['K']) == amount_of(number, 1024),
        compact_size_of(number + seq!['B']) == amount_of(number, 1),
        compact_size_of(tok.push('.')) == compact_size_of(tok),
        compact_size_of(Seq::empty()) == 0,
        tok.len() > 0 && tok.last() != '.' && tok.last() != 'G' && tok.last() != 'M' && tok.last()
            != 'K' && tok.last() != 'B' ==> compact_size_of(tok) == 0,
{
    reveal_strlit("G");
    reveal_strlit("M");
    reveal_strlit("K");
    reveal_strlit("B");
    assert("G"@ =~= seq!['G'] && "M"@ =~= seq!['M'] && "K"@ =~= seq!['K'] && "B"@ =~= seq!['B']);
    law_affixes(number, "G"@, tok);
    law_affixes(number, "M"@, tok);
    law_affixes(number, "K"@, tok);
    law_affixes(number, "B"@, tok);
    law_affixes(number, "G"@, number + "M"@);
    law_affixes(number, "G"@, number + "K"@);
    law_affixes(number, "G"@, number + "B"@);
    law_affixes(number, "M"@, number + "K"@);
    law_affixes(number, "M"@, number + "B"@);
    law_affixes(number, "K"@, number + "B"@);
    assert((number + "G"@).last() == 'G');
    assert((number + "M"@).last() == 'M');
    assert((number + "K"@).last() == 'K');
    assert((number + "B"@).last() == 'B');
    assert(forall|x: Seq<char>| (#[trigger] (x + "G"@)).last() == 'G');
    assert(forall|x: Seq<char>| (#[trigger] (x + "M"@)).last() == 'M');
    assert(forall|x: Seq<char>| (#[trigger] (x + "K"@)).last() == 'K');
    assert(forall|x: Seq<char>| (#[trigger] (x + "B"@)).last() == 'B');
    assert(tok.push('.').drop_last() =~= tok);
}

/// No number is negative, a plus sign is skipped, and infinity is the largest
/// number, whatever the case of its letters.
pub proof fn law_amount_signs(s: Seq<char>, factor: nat)
    ensures
        amount_of(seq!['-'] + s, factor) == 0,
        s.len() > 0 && s[0] != '+' && s[0] != '-' ==> amount_of(seq!['+'] + s, factor) == amount_of(
            s,
            factor,
        ),
        amount_of(Seq::empty(), factor) == 0,
        folded(s) == "inf"@ || folded(s) == "infinity"@ ==> amount_of(s, factor) == u64::MAX,
{
    reveal_strlit("inf");
    reveal_strlit("infinity");
    assert((seq!['+'] + s).skip(1) =~= s);
    let none = Seq::<char>::empty();
    assert("inf"@.len() == 3 && "infinity"@.len() == 8);
    assert(none.take(0) =~= none);
    assert(none + none =~= none);
    if folded(s) == "inf"@ {
        assert(folded_char(s[0]) == folded(s)[0]);
        assert forall|i: int| 0 <= i < s.len() implies folded_char(#[trigger] s[i]) == "inf"@[i] by {
            assert(folded(s)[i] == folded_char(s[i]));
        }
    }
    if folded(s) == "infinity"@ {
        assert(folded_char(s[0]) == folded(s)[0]);
        assert forall|i: int| 0 <= i < s.len() implies folded_char(#[trigger] s[i])
            == "infinity"@[i] by {
            assert(folded(s)[i] == folded_char(s[i]));
        }
    }
}

proof fn lemma_marks(front: Seq<char>, c: char, rest: Seq<char>)
    requires
        all_digits(front),
    ensures
        c == '.' ==> point_at(front + seq![c] + rest) == front.len(),
        c == 'e' || c == 'E' ==> mark_at(front + seq![c] + rest) == front.len(),
        c == '.' ==> mark_at(front + seq![c] + rest) == front.len() + 1 + mark_at(rest),
    decreases front.len(),
{
    let s = front + seq![c] + rest;
    if front.len() == 0 {
        assert(s[0] == c);
        assert(s.skip(1) =~= rest);
    } else {
        assert(is_digit(front[0]));
        let later = front.skip(1);
        assert forall|i: int| 0 <= i < later.len() implies is_digit(#[trigger] later[i]) by {
            assert(later[i] == front[i + 1]);
        }
        lemma_marks(later, c, rest);
        assert(s[0] == front[0]);
        assert(s.skip(1) =~= later + seq![c] + rest);
    }
}

proof fn lemma_not_spelled(s: Seq<char>)
    requires
        s.len() > 0,
        is_digit(s[0]) || s[0] == '.',
    ensures
        !spells(s, "inf"@),
        !spells(s, "infinity"@),
        unsigned_part(s) == s,
        !negative(s),
{
    reveal_strlit("inf");
    reveal_strlit("infinity");
    assert(folded_char(s[0]) == s[0]);
}

/// A decimal number stands for its digits over the power of ten that its
/// point says.
pub proof fn law_decimal_amount(front: Seq<char>, back: Seq<char>, factor: nat)
    requires
        all_digits(front),
        all_digits(back),
        front.len() + back.len() > 0,
        back.len() > 0,
    ensures
        amount_of(front + seq!['.'] + back, factor) == product(
            value_of(front + back),
            ten(back.len()),
            factor,
        ),
{
    let s = front + seq!['.'] + back;
    lemma_marks(front, '.', back);
    lemma_plain_digits(back);
    assert(s[0] == if front.len() > 0 {
        front[0]
    } else {
        '.'
    });
    if front.len() > 0 {
        assert(is_digit(front[0]));
    }
    lemma_not_spelled(s);
    assert(s.take(s.len() as int) =~= s);
    assert(s.take(front.len() as int) =~= front);
    assert(s.skip(front.len() as int + 1) =~= back);
    lemma_both_digits(front, back);
}

/// A whole number with an exponent is multiplied, or divided, by that power
/// of ten.
pub proof fn law_exponent_amount(digits: Seq<char>, exponent: Seq<char>, factor: nat)
    requires
        digits.len() > 0 && all_digits(digits),
        exponent.len() > 0 && all_digits(exponent),
    ensures
        amount_of(digits + seq!['e'] + exponent, factor) == product(
            value_of(digits) * ten(value_of(exponent)),
            1,
            factor,
        ),
        value_of(exponent) > 0 ==> amount_of(
            digits + seq!['E'] + (seq!['-'] + exponent),
            factor,
        ) == product(value_of(digits), ten(value_of(exponent)), factor),
{
    let none = Seq::<char>::empty();
    assert(is_digit(digits[0]));
    assert(is_digit(exponent[0]));
    lemma_plain_digits(digits);
    assert(digits.take(digits.len() as int) =~= digits);
    assert(digits + none =~= digits);
    let s = digits + seq!['e'] + exponent;
    lemma_marks(digits, 'e', exponent);
    assert(s[0] == digits[0]);
    lemma_not_spelled(s);
    assert(s.take(digits.len() as int) =~= digits);
    assert(s.skip(digits.len() as int + 1) =~= exponent);
    let down = seq!['-'] + exponent;
    let t = digits + seq!['E'] + down;
    lemma_marks(digits, 'E', down);
    assert(t[0] == digits[0]);
    lemma_not_spelled(t);
    assert(t.take(digits.len() as int) =~= digits);
    assert(t.skip(digits.len() as int + 1) =~= down);
    assert(down.skip(1) =~= exponent);
}

/// A text that starts as no number does is read as zero.
pub proof fn law_no_amount(s: Seq<char>, factor: nat)
    requires
        s.len() > 0,
        !is_digit(s[0]),
        s[0] != '.' && s[0] != '+' && s[0] != 'i' && s[0] != 'I',
    ensures
        amount_of(s, factor) == 0,
{
    reveal_strlit("inf");
    reveal_strlit("infinity");
    if !negative(s) {
        assert(folded_char(s[0]) != 'i');
        assert(!spells(s, "inf"@) && !spells(s, "infinity"@));
        let k = mark_at(s) as int;
        lemma_mark_inside(s);
        let head = s.take(k);
        let p = point_at(head) as int;
        lemma_point_inside(head);
        if k > 0 {
            assert(head[0] == s[0]);
            assert(p > 0);
            let front = head.take(p);
            assert(front[0] == s[0]);
            let back = if p < head.len() {
                head.skip(p + 1)
            } else {
                Seq::empty()
            };
            assert((front + back)[0] == s[0]);
        } else {
            assert(head.len() == 0);
            assert(head.take(p) + Seq::<char>::empty() =~= Seq::<char>::empty());
        }
    }
}

proof fn lemma_mark_inside(s: Seq<char>)
    ensures
        mark_at(s) <= s.len(),
    decreases s.len(),
{
    if s.len() > 0 {
        lemma_mark_inside(s.skip(1));
    }
}

proof fn lemma_point_inside(s: Seq<char>)
    ensures
        point_at(s) <= s.len(),
    decreases s.len(),
{
    if s.len() > 0 {
        lemma_point_inside(s.skip(1));
    }
}

} // verus!
