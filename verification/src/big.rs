//! Natural numbers of any size, for exact arithmetic on decimal texts.

use vstd::prelude::*;

verus! {

/// What a limb in position `i` counts.
pub open spec fn unit(i: nat) -> nat
    decreases i,
{
    if i == 0 {
        1
    } else {
        0x1_0000_0000 * unit((i - 1) as nat)
    }
}

/// The number that limbs, least significant first, stand for.
pub open spec fn value(limbs: Seq<u32>) -> nat
    decreases limbs.len(),
{
    if limbs.len() == 0 {
        0
    } else {
        value(limbs.drop_last()) + (limbs.last() as nat) * unit((limbs.len() - 1) as nat)
    }
}

/// A natural number.
pub struct Big {
    pub limbs: Vec<u32>,
}

impl View for Big {
    type V = nat;

    open spec fn view(&self) -> nat {
        value(self.limbs@)
    }
}

/// How two numbers compare.
#[derive(Clone, Copy, Debug, PartialEq, Eq, Structural)]
pub enum Side {
    Below,
    Level,
    Above,
}

/// How `a` lies to `b`.
pub open spec fn side(a: nat, b: nat) -> Side {
    if a < b {
        Side::Below
    } else if a == b {
        Side::Level
    } else {
        Side::Above
    }
}

/// The limb in position `i`, zero beyond the top.
pub open spec fn limb(s: Seq<u32>, i: int) -> u32 {
    if 0 <= i < s.len() {
        s[i]
    } else {
        0
    }
}

/// The number that the lowest `i` limbs stand for.
pub open spec fn low(s: Seq<u32>, i: int) -> nat {
    if i < s.len() {
        value(s.take(i))
    } else {
        value(s)
    }
}

proof fn lemma_low_step(s: Seq<u32>, i: int)
    requires
        0 <= i,
    ensures
        low(s, i + 1) == low(s, i) + limb(s, i) * unit(i as nat),
{
    if i < s.len() {
        assert(s.take(i + 1).drop_last() =~= s.take(i));
        assert(s.take(i + 1).last() == s[i]);
        if i + 1 == s.len() {
            assert(s.take(i + 1) =~= s);
        }
    } else {
        let u = unit(i as nat);
        assert(0 * u == 0) by (nonlinear_arith);
    }
}

proof fn lemma_low_bound(s: Seq<u32>, i: int)
    requires
        0 <= i,
    ensures
        low(s, i) < unit(i as nat),
        low(s, 0) == 0,
    decreases i,
{
    if s.len() > 0 {
        assert(s.take(0).len() == 0);
    }
    if i > 0 {
        lemma_low_bound(s, i - 1);
        lemma_low_step(s, i - 1);
        let u = unit((i - 1) as nat);
        let c = limb(s, i - 1);
        assert(c * u <= 0xffff_ffff * u) by (nonlinear_arith)
            requires
                c <= 0xffff_ffff,
        ;
    }
}

impl Big {
    /// The number of one small value.
    pub fn small(n: u32) -> (r: Big)
        ensures
            r@ == n,
    {
        let mut limbs: Vec<u32> = Vec::new();
        limbs.push(n);
        assert(limbs@.drop_last().len() == 0);
        assert(value(limbs@.drop_last()) == 0);
        assert((n as nat) * unit(0) == n) by (nonlinear_arith)
            requires
                unit(0) == 1,
        ;
        Big { limbs }
    }

    /// The number of a 64-bit value.
    pub fn of(n: u64) -> (r: Big)
        ensures
            r@ == n,
    {
        let high = Big::small((n / 0x1_0000_0000) as u32);
        let half = high.times(0x1_0000, 0);
        half.times(0x1_0000, 0).plus((n % 0x1_0000_0000) as u32)
    }

    fn limb(&self, i: usize) -> (r: u32)
        ensures
            r == limb(self.limbs@, i as int),
    {
        if i < self.limbs.len() {
            self.limbs[i]
        } else {
            0
        }
    }

    /// `self * factor + extra`.
    pub fn times(&self, factor: u32, extra: u32) -> (r: Big)
        ensures
            r@ == self@ * factor + extra,
    {
        let mut out: Vec<u32> = Vec::new();
        let mut carry: u32 = extra;
        let mut i: usize = 0;
        let n = self.limbs.len();
        proof {
            lemma_low_bound(self.limbs@, 0);
            assert((carry as nat) * unit(0) == carry) by (nonlinear_arith)
                requires
                    unit(0) == 1,
            ;
            assert(0 * (factor as nat) == 0) by (nonlinear_arith);
        }
        while i < n
            invariant
                i <= n == self.limbs@.len(),
                out@.len() == i,
                value(out@) + carry * unit(i as nat) == low(self.limbs@, i as int) * factor + extra,
            decreases n - i,
        {
            assert(self.limbs[i as int] * factor + carry <= 0xffff_ffff * 0xffff_ffff + 0xffff_ffff)
                by (nonlinear_arith)
                requires
                    self.limbs[i as int] <= 0xffff_ffff,
                    factor <= 0xffff_ffff,
                    carry <= 0xffff_ffff,
            ;
            assert(self.limbs[i as int] * factor >= 0) by (nonlinear_arith);
            let t: u64 = self.limbs[i] as u64 * factor as u64 + carry as u64;
            let digit = (t % 0x1_0000_0000) as u32;
            let next = (t / 0x1_0000_0000) as u32;
            proof {
                lemma_low_step(self.limbs@, i as int);
                let u = unit(i as nat);
                let c = self.limbs[i as int];
                let l = low(self.limbs@, i as int);
                assert(unit((i + 1) as nat) == 0x1_0000_0000 * u);
                assert(t == digit + next * 0x1_0000_0000);
                assert(digit * u + next * (0x1_0000_0000 * u) == (c * factor + carry) * u)
                    by (nonlinear_arith)
                    requires
                        c * factor + carry == digit + next * 0x1_0000_0000,
                ;
                assert((l + c * u) * factor + extra + carry * u == l * factor + extra + (c * factor
                    + carry) * u) by (nonlinear_arith);
                assert(out@.push(digit).drop_last() =~= out@);
            }
            out.push(digit);
            carry = next;
            i += 1;
        }
        assert(carry == 0 ==> carry * unit(n as nat) == 0) by (nonlinear_arith);
        if carry > 0 {
            assert(out@.push(carry).drop_last() =~= out@);
            out.push(carry);
        }
        Big { limbs: out }
    }

    /// `self + extra`.
    pub fn plus(&self, extra: u32) -> (r: Big)
        ensures
            r@ == self@ + extra,
    {
        self.times(1, extra)
    }

    pub fn against(&self, other: &Big) -> (r: Side)
        ensures
            r == side(self@, other@),
    {
        let n = if self.limbs.len() < other.limbs.len() {
            other.limbs.len()
        } else {
            self.limbs.len()
        };
        let mut i: usize = n;
        while i > 0
            invariant
                self@ - low(self.limbs@, i as int) == other@ - low(other.limbs@, i as int),
            decreases i,
        {
            let a = self.limb(i - 1);
            let b = other.limb(i - 1);
            proof {
                let k = i as int - 1;
                lemma_low_step(self.limbs@, k);
                lemma_low_step(other.limbs@, k);
                lemma_low_bound(self.limbs@, k);
                lemma_low_bound(other.limbs@, k);
                let u = unit(k as nat);
                if a < b {
                    assert((a + 1) * u <= b * u) by (nonlinear_arith)
                        requires
                            a < b,
                    ;
                    assert((a + 1) * u == a * u + u) by (nonlinear_arith);
                } else if b < a {
                    assert((b + 1) * u <= a * u) by (nonlinear_arith)
                        requires
                            b < a,
                    ;
                    assert((b + 1) * u == b * u + u) by (nonlinear_arith);
                }
            }
            if a < b {
                return Side::Below;
            }
            if b < a {
                return Side::Above;
            }
            i -= 1;
        }
        proof {
            lemma_low_bound(self.limbs@, 0);
            lemma_low_bound(other.limbs@, 0);
        }
        Side::Level
    }

    /// `self - other`.
    pub fn less(&self, other: &Big) -> (r: Big)
        requires
            other@ <= self@,
        ensures
            r@ == self@ - other@,
    {
        let n = if self.limbs.len() < other.limbs.len() {
            other.limbs.len()
        } else {
            self.limbs.len()
        };
        let mut out: Vec<u32> = Vec::new();
        let mut borrow: u32 = 0;
        let mut i: usize = 0;
        proof {
            lemma_low_bound(self.limbs@, 0);
            lemma_low_bound(other.limbs@, 0);
        }
        while i < n
            invariant
                i <= n,
                borrow <= 1,
                out@.len() == i,
                value(out@) + low(other.limbs@, i as int) == low(self.limbs@, i as int) + borrow
                    * unit(i as nat),
            decreases n - i,
        {
            let a = self.limb(i) as u64;
            let b = other.limb(i) as u64 + borrow as u64;
            let (digit, next): (u32, u32) = if a >= b {
                ((a - b) as u32, 0)
            } else {
                ((0x1_0000_0000 + a - b) as u32, 1)
            };
            proof {
                lemma_low_step(self.limbs@, i as int);
                lemma_low_step(other.limbs@, i as int);
                let u = unit(i as nat);
                let y = limb(other.limbs@, i as int);
                assert(unit((i + 1) as nat) == 0x1_0000_0000 * u);
                assert(digit + y + borrow == a + next * 0x1_0000_0000);
                assert(digit * u + y * u + borrow * u == a * u + next * (0x1_0000_0000 * u))
                    by (nonlinear_arith)
                    requires
                        digit + y + borrow == a + next * 0x1_0000_0000,
                ;
                assert(out@.push(digit).drop_last() =~= out@);
            }
            out.push(digit);
            borrow = next;
            i += 1;
        }
        proof {
            let u = unit(n as nat);
            assert(value(out@) < u) by {
                lemma_low_bound(out@, n as int);
            }
            assert(borrow == 1 ==> borrow * u == u) by (nonlinear_arith);
            assert(borrow == 0 ==> borrow * u == 0) by (nonlinear_arith);
        }
        Big { limbs: out }
    }
}

} // verus!
