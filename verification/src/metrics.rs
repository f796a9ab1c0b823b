//! Live metrics: sample histories, disks, and which samples count.

use vstd::prelude::*;
use vstd::string::*;

use std::collections::VecDeque;

use crate::theme::{bytes_text, fmt_bytes};

verus! {

/// How many samples a history holds.
pub const HISTORY: usize = 120;

/// The newest samples of a metric.
pub struct Ring<T> {
    buf: VecDeque<T>,
}

impl<T> View for Ring<T> {
    type V = Seq<T>;

    closed spec fn view(&self) -> Seq<T> {
        self.buf@
    }
}

impl<T: Copy> Ring<T> {
    /// A history in which every sample is `zero`.
    pub fn new(zero: T) -> (r: Self)
        ensures
            r@ == Seq::new(HISTORY as nat, |i: int| zero),
    {
        let mut buf: VecDeque<T> = VecDeque::new();
        let mut i: usize = 0;
        while i < HISTORY
            invariant
                i <= HISTORY,
                buf@ == Seq::new(i as nat, |k: int| zero),
            decreases HISTORY - i,
        {
            buf.push_back(zero);
            i += 1;
            assert(buf@ =~= Seq::new(i as nat, |k: int| zero));
        }
        Ring { buf }
    }

    /// Adds a sample; in a full history the oldest gives way.
    pub fn push(&mut self, v: T)
        ensures
            final(self)@ == (if old(self)@.len() >= HISTORY {
                old(self)@.skip(1).push(v)
            } else {
                old(self)@.push(v)
            }),
    {
        if self.buf.len() >= HISTORY {
            self.buf.pop_front();
            assert(self.buf@ =~= old(self)@.skip(1));
        }
        self.buf.push_back(v);
    }

    /// The samples, oldest first.
    pub fn values(&self) -> (r: Vec<T>)
        ensures
            r@ == self@,
    {
        let mut r: Vec<T> = Vec::new();
        let n = self.buf.len();
        let mut i: usize = 0;
        while i < n
            invariant
                i <= n == self.buf@.len(),
                r@ == self.buf@.take(i as int),
            decreases n - i,
        {
            r.push(self.buf[i]);
            i += 1;
            assert(r@ =~= self.buf@.take(i as int));
        }
        assert(r@ =~= self.buf@);
        r
    }
}

/// The history after one more sample.
pub open spec fn pushed<T>(s: Seq<T>, v: T) -> Seq<T> {
    if s.len() >= HISTORY {
        s.skip(1).push(v)
    } else {
        s.push(v)
    }
}

/// A full history stays full, and its newest sample is the last one added.
pub proof fn law_ring_stays_full<T>(s: Seq<T>, v: T)
    requires
        s.len() == HISTORY,
    ensures
        pushed(s, v).len() == HISTORY,
        pushed(s, v).last() == v,
        forall|i: int| 0 <= i < HISTORY - 1 ==> pushed(s, v)[i] == s[i + 1],
{
}

/// A mounted file system.
pub struct DiskInfo {
    pub name: String,
    pub mount: String,
    pub fs: String,
    pub kind: String,
    pub total: u64,
    pub used: u64,
    pub removable: bool,
}

/// What remains of `a` without `b`, never below zero.
pub open spec fn less(a: u64, b: u64) -> u64 {
    if a >= b {
        (a - b) as u64
    } else {
        0
    }
}

pub fn saturating_less(a: u64, b: u64) -> (r: u64)
    ensures
        r == less(a, b),
{
    if a >= b {
        a - b
    } else {
        0
    }
}

impl DiskInfo {
    /// A disk of which `available` bytes of `total` are free.
    pub fn new(
        name: String,
        mount: String,
        fs: String,
        kind: String,
        total: u64,
        available: u64,
        removable: bool,
    ) -> (r: Self)
        ensures
            r == (DiskInfo {
                name,
                mount,
                fs,
                kind,
                total,
                used: less(total, available),
                removable,
            }),
            r.used <= r.total,
    {
        DiskInfo { name, mount, fs, kind, total, used: saturating_less(total, available), removable }
    }

    /// Device, file system and kind, and whether it can be taken out.
    pub fn detail(&self) -> (r: String)
        ensures
            r@ == self.name@ + "  ·  "@ + self.fs@ + " · "@ + self.kind@ + (if self.removable {
                " · removable"@
            } else {
                ""@
            }),
    {
        let mut s = self.name.as_str().to_owned();
        s.append("  ·  ");
        s.append(self.fs.as_str());
        s.append(" · ");
        s.append(self.kind.as_str());
        s.append(
            if self.removable {
                " · removable"
            } else {
                ""
            },
        );
        s
    }

    /// How much is free of how much.
    pub fn room(&self) -> (r: String)
        ensures
            r@ == bytes_text(less(self.total, self.used) as nat) + " free of "@ + bytes_text(
                self.total as nat,
            ),
    {
        let mut s = fmt_bytes(saturating_less(self.total, self.used));
        s.append(" free of ");
        let t = fmt_bytes(self.total);
        s.append(t.as_str());
        s
    }
}

/// `used` and `total` in one text, with `between` between them.
pub open spec fn share_text(used: u64, between: Seq<char>, total: u64, after: Seq<char>) -> Seq<char> {
    bytes_text(used as nat) + between + bytes_text(total as nat) + after
}

/// How much of a total is used, such as `3.1 GB of 15.5 GB used`.
pub fn share(used: u64, between: &str, total: u64, after: &str) -> (r: String)
    ensures
        r@ == share_text(used, between@, total, after@),
{
    let mut s = fmt_bytes(used);
    s.append(between);
    let t = fmt_bytes(total);
    s.append(t.as_str());
    s.append(after);
    s
}

/// Which samples count: the first network sample spans an unknown time and is
/// dropped, and a machine without a usable sensor is not asked again.
pub struct Gates {
    pub net_primed: bool,
    pub temp_supported: bool,
}

impl Gates {
    pub fn new() -> (r: Self)
        ensures
            !r.net_primed,
            r.temp_supported,
    {
        Gates { net_primed: false, temp_supported: true }
    }

    /// Whether this network sample counts.
    pub fn admit_net(&mut self) -> (r: bool)
        ensures
            r == old(self).net_primed,
            final(self).net_primed,
            final(self).temp_supported == old(self).temp_supported,
    {
        let r = self.net_primed;
        self.net_primed = true;
        r
    }

    /// Takes in a temperature reading, and says whether it is a sample.
    pub fn admit_temp(&mut self, reading: Option<i64>) -> (r: bool)
        ensures
            r == (reading is Some),
            final(self).temp_supported == (old(self).temp_supported && reading is Some),
            final(self).net_primed == old(self).net_primed,
    {
        if reading.is_none() {
            self.temp_supported = false;
        }
        reading.is_some()
    }
}

/// A history holds the newest hundred and twenty samples.
pub proof fn law_history<T>(s: Seq<T>, v: T)
    ensures
        s.len() < 120 ==> pushed(s, v) == s.push(v),
        s.len() == 120 ==> pushed(s, v) == s.skip(1).push(v),
{
}

/// What is left is never below nothing, and what is shown of a share is both
/// sizes around the words.
pub proof fn law_shares(used: u64, total: u64, between: Seq<char>, after: Seq<char>)
    ensures
        used <= total ==> less(total, used) == total - used,
        used > total ==> less(total, used) == 0,
        share_text(used, between, total, after) == bytes_text(used as nat) + between + bytes_text(
            total as nat,
        ) + after,
{
}

} // verus!
