//! Unsigned decimal numbers: reading them from text and writing them out.

use vstd::prelude::*;

use crate::text::{digit, is_digit, to_text};

verus! {

/// The number that an ASCII digit stands for.
pub open spec fn digit_value(c: char) -> nat {
    (c as nat - '0' as nat) as nat
}

/// Whether every character is an ASCII digit.
pub open spec fn all_digits(s: Seq<char>) -> bool {
    forall|i: int| 0 <= i < s.len() ==> is_digit(#[trigger] s[i])
}

/// The number that a run of digits stands for.
pub open spec fn value_of(s: Seq<char>) -> nat
    decreases s.len(),
{
    if s.len() == 0 {
        0
    } else {
        value_of(s.drop_last()) * 10 + digit_value(s.last())
    }
}

/// The unsigned number that `s` spells: digits after an optional plus sign.
pub open spec fn unsigned_of(s: Seq<char>) -> Option<nat> {
    let body = if s.len() > 0 && s[0] == '+' {
        s.skip(1)
    } else {
        s
    };
    if body.len() > 0 && all_digits(body) {
        Some(value_of(body))
    } else {
        None
    }
}

/// The unsigned number that `s` spells, when it is at most `max`.
pub open spec fn bounded_of(s: Seq<char>, max: nat) -> Option<nat> {
    match unsigned_of(s) {
        Some(v) => if v <= max {
            Some(v)
        } else {
            None
        },
        None => None,
    }
}

/// Adding digits never makes the number smaller.
pub proof fn lemma_value_grows(s: Seq<char>, n: int)
    requires
        0 <= n <= s.len(),
    ensures
        value_of(s.take(n)) <= value_of(s),
    decreases s.len(),
{
    if n < s.len() {
        lemma_value_grows(s.drop_last(), n);
        assert(s.drop_last().take(n) =~= s.take(n));
    } else {
        assert(s.take(n) =~= s);
    }
}

/// Reads an unsigned number that fits in 64 bits.
pub fn parse_u64(s: &[char]) -> (r: Option<u64>)
    ensures
        r == (match bounded_of(s@, u64::MAX as nat) {
            Some(v) => Some(v as u64),
            None => None,
        }),
{
    let start: usize = if s.len() > 0 && s[0] == '+' {
        1
    } else {
        0
    };
    let ghost body = s@.skip(start as int);
    assert(start == 0 ==> body =~= s@);
    if start == s.len() {
        return None;
    }
    let mut i: usize = start;
    let mut v: u64 = 0;
    let mut fits: bool = true;
    assert(body.take(0) =~= Seq::<char>::empty());
    while i < s.len()
        invariant
            start <= i <= s@.len(),
            body == s@.skip(start as int),
            start == (if s@.len() > 0 && s@[0] == '+' {
                1int
            } else {
                0int
            }),
            start == 0 ==> body == s@,
            forall|k: int| 0 <= k < i - start ==> is_digit(#[trigger] body[k]),
            fits ==> v == value_of(body.take(i - start)),
            !fits ==> value_of(body.take(i - start)) > u64::MAX,
        decreases s@.len() - i,
    {
        let c = s[i];
        assert(c == body[i - start]);
        if !digit(c) {
            assert(!all_digits(body));
            return None;
        }
        let d: u64 = (c as u32 - '0' as u32) as u64;
        let ghost upto = body.take(i - start + 1);
        assert(upto.drop_last() =~= body.take(i - start));
        assert(value_of(upto) == value_of(body.take(i - start)) * 10 + d);
        if fits {
            if v <= (u64::MAX - d) / 10 {
                v = v * 10 + d;
            } else {
                fits = false;
            }
        }
        i += 1;
    }
    assert(body.take(i - start) =~= body);
    assert(all_digits(body));
    if fits {
        Some(v)
    } else {
        None
    }
}

/// Reads an unsigned number that fits in 8 bits.
pub fn parse_u8(s: &[char]) -> (r: Option<u8>)
    ensures
        r == (match bounded_of(s@, u8::MAX as nat) {
            Some(v) => Some(v as u8),
            None => None,
        }),
{
    match parse_u64(s) {
        Some(v) => if v <= 255 {
            Some(v as u8)
        } else {
            None
        },
        None => None,
    }
}

/// The digit that stands for a number below ten.
pub open spec fn digit_char(d: nat) -> char {
    ('0' as nat + d) as char
}

/// The digits of `n`, without leading zeros.
pub open spec fn decimal(n: nat) -> Seq<char>
    decreases n,
{
    if n < 10 {
        seq![digit_char(n)]
    } else {
        decimal(n / 10).push(digit_char(n % 10))
    }
}

/// The digits of `n`, at least two of them.
pub open spec fn two_digits(n: nat) -> Seq<char> {
    if n < 10 {
        seq!['0'] + decimal(n)
    } else {
        decimal(n)
    }
}

fn push_decimal(out: &mut Vec<char>, n: u128)
    ensures
        final(out)@ == old(out)@ + decimal(n as nat),
    decreases n,
{
    if n >= 10 {
        push_decimal(out, n / 10);
    }
    let d: u8 = (n % 10) as u8;
    let c = (48u8 + d) as char;
    out.push(c);
    assert(out@ =~= old(out)@ + decimal(n as nat));
}

/// Writes a number in decimal.
pub fn show(n: u64) -> (r: String)
    ensures
        r@ == decimal(n as nat),
{
    let mut out: Vec<char> = Vec::new();
    push_decimal(&mut out, n as u128);
    assert(out@ =~= decimal(n as nat));
    to_text(&out)
}

/// Writes a wide number in decimal.
pub fn show_wide(n: u128) -> (r: String)
    ensures
        r@ == decimal(n as nat),
{
    let mut out: Vec<char> = Vec::new();
    push_decimal(&mut out, n);
    assert(out@ =~= decimal(n as nat));
    to_text(&out)
}

/// Writes a number in decimal with at least two digits.
pub fn show_two(n: u64) -> (r: String)
    ensures
        r@ == two_digits(n as nat),
{
    let mut out: Vec<char> = Vec::new();
    if n < 10 {
        out.push('0');
    }
    push_decimal(&mut out, n as u128);
    assert(out@ =~= two_digits(n as nat));
    to_text(&out)
}

/// The sum of some sizes.
pub open spec fn sum_of(s: Seq<u64>) -> nat
    decreases s.len(),
{
    if s.len() == 0 {
        0
    } else {
        sum_of(s.drop_last()) + s.last() as nat
    }
}

/// The sum over two parts is the sum of their sums.
pub proof fn lemma_sum_append(a: Seq<u64>, b: Seq<u64>)
    ensures
        sum_of(a + b) == sum_of(a) + sum_of(b),
    decreases b.len(),
{
    if b.len() == 0 {
        assert(a + b =~= a);
    } else {
        lemma_sum_append(a, b.drop_last());
        assert((a + b).drop_last() =~= a + b.drop_last());
    }
}

/// A part of some sizes adds up to no more than all of them.
pub proof fn lemma_sum_grows(s: Seq<u64>, n: int)
    requires
        0 <= n <= s.len(),
    ensures
        sum_of(s.take(n)) <= sum_of(s),
{
    lemma_sum_append(s.take(n), s.skip(n));
    assert(s.take(n) + s.skip(n) =~= s);
}

/// The sum of some sizes, when it fits in 64 bits.
pub fn checked_sum(s: &[u64]) -> (r: Option<u64>)
    ensures
        r == (if sum_of(s@) <= u64::MAX {
            Some(sum_of(s@) as u64)
        } else {
            None
        }),
{
    let mut total: u64 = 0;
    let mut i: usize = 0;
    while i < s.len()
        invariant
            i <= s@.len(),
            total == sum_of(s@.take(i as int)),
        decreases s@.len() - i,
    {
        assert(s@.take(i as int + 1).drop_last() =~= s@.take(i as int));
        proof {
            lemma_sum_grows(s@, i as int + 1);
        }
        if s[i] > u64::MAX - total {
            return None;
        }
        total += s[i];
        i += 1;
    }
    assert(s@.take(i as int) =~= s@);
    Some(total)
}

proof fn lemma_decimal_digits(n: nat)
    ensures
        decimal(n).len() > 0,
        all_digits(decimal(n)),
        value_of(decimal(n)) == n,
    decreases n,
{
    if n < 10 {
        assert(value_of(Seq::<char>::empty()) == 0);
        assert(decimal(n).drop_last() =~= Seq::<char>::empty());
        assert(decimal(n).last() == digit_char(n));
    } else {
        lemma_decimal_digits(n / 10);
        assert(decimal(n).drop_last() =~= decimal(n / 10));
        assert(decimal(n).last() == digit_char(n % 10));
        assert forall|i: int| 0 <= i < decimal(n).len() implies is_digit(
            #[trigger] decimal(n)[i],
        ) by {
            if i < decimal(n).len() - 1 {
                assert(decimal(n)[i] == decimal(n / 10)[i]);
            }
        }
    }
}

/// A number that was written out reads back as itself.
pub proof fn law_decimal_round_trip(n: nat)
    ensures
        unsigned_of(decimal(n)) == Some(n),
{
    lemma_decimal_digits(n);
    assert(is_digit(decimal(n)[0]));
}

/// A run of digits counts ten times what precedes its last digit, and that
/// digit.
pub proof fn law_value(s: Seq<char>, c: char)
    requires
        is_digit(c),
    ensures
        value_of(s.push(c)) == 10 * value_of(s) + (c as u32 - '0' as u32),
        value_of(Seq::<char>::empty()) == 0,
        is_digit(c) <==> seq!['0', '1', '2', '3', '4', '5', '6', '7', '8', '9'].contains(c),
{
    assert(s.push(c).drop_last() =~= s);
    let all = seq!['0', '1', '2', '3', '4', '5', '6', '7', '8', '9'];
    let d = (c as u32 - '0' as u32) as int;
    assert(0 <= d < 10);
    assert(all[d] == c) by {
        if d == 0 {
        } else if d == 1 {
        } else if d == 2 {
        } else if d == 3 {
        } else if d == 4 {
        } else if d == 5 {
        } else if d == 6 {
        } else if d == 7 {
        } else if d == 8 {
        } else {
        }
    }
}

/// A number is written with digits only, without a zero in front unless it is
/// zero, and reads back as itself; two digits are at least two.
pub proof fn law_decimal(n: nat)
    ensures
        decimal(n).len() > 0,
        all_digits(decimal(n)),
        value_of(decimal(n)) == n,
        decimal(n)[0] == '0' <==> n == 0,
        n < 10 ==> two_digits(n) == seq!['0'] + decimal(n),
        n >= 10 ==> two_digits(n) == decimal(n),
    decreases n,
{
    lemma_decimal_digits(n);
    if n >= 10 {
        law_decimal(n / 10);
        lemma_decimal_digits(n / 10);
        assert(decimal(n)[0] == decimal(n / 10)[0]);
    } else {
        assert(decimal(n)[0] == digit_char(n));
    }
}

/// What spells a number: digits, at least one, and a plus sign ahead of them
/// if any; what is above the bound spells none.
pub proof fn law_unsigned(s: Seq<char>, max: nat)
    requires
        s.len() > 0,
        all_digits(s),
    ensures
        unsigned_of(s) == Some(value_of(s)),
        unsigned_of(seq!['+'] + s) == Some(value_of(s)),
        value_of(s) <= max ==> bounded_of(s, max) == Some(value_of(s)),
        value_of(s) > max ==> bounded_of(s, max) is None,
{
    assert(is_digit(s[0]));
    let t = seq!['+'] + s;
    assert(t.skip(1) =~= s);
}

/// A text with anything but digits behind its sign spells no number.
pub proof fn law_no_number(s: Seq<char>, i: int, max: nat)
    ensures
        0 < i < s.len() && !is_digit(s[i]) ==> bounded_of(s, max) is None,
        s.len() > 0 && !is_digit(s[0]) && s[0] != '+' ==> bounded_of(s, max) is None,
        s.len() == 0 || s == seq!['+'] ==> bounded_of(s, max) is None,
{
    if 0 < i < s.len() && !is_digit(s[i]) {
        if s[0] == '+' {
            assert(s.skip(1)[i - 1] == s[i]);
        }
    }
    if s == seq!['+'] {
        assert(s.skip(1).len() == 0);
    }
}

/// Sizes add up, in whatever order they stand.
pub proof fn law_sum(a: Seq<u64>, b: Seq<u64>, n: u64)
    ensures
        sum_of(a + b) == sum_of(a) + sum_of(b),
        sum_of(seq![n]) == n,
        sum_of(Seq::<u64>::empty()) == 0,
{
    lemma_sum_append(a, b);
    reveal_with_fuel(sum_of, 2);
    assert(seq![n].drop_last() =~= Seq::<u64>::empty());
}

} // verus!
