//! Installed kernels and the safe removal of old ones.
//!
//! The running kernel and the newest installed one are always protected, and
//! a removal is planned from a fresh listing only.

use vstd::prelude::*;
use vstd::string::*;

use crate::apps::{apt_script, apt_script_of, is_pkg_name, law_pkg_name_inert, valid_pkg};
use crate::log::{failure, failure_of, newest_lines, push_log};
use crate::number::{
    bounded_of, checked_sum, decimal, law_decimal, law_sum, parse_u64, show, sum_of, value_of,
};
use crate::order::{
    key_less, key_lt, law_key_by_first_difference, law_key_order, law_sort_keeps_items, law_sort_orders, law_text_order,
    lemma_ranked_weak, order_of, sorted_by, stable_sort, text_less, text_lt, Ranked,
};
use crate::text::{
    digit, is_text, is_digit, is_plain, kept, law_affixes, law_kept_in_order, law_kept_items,
    law_last_of, law_plain, law_split, lemma_kept_ends, lemma_kept_step, lemma_views_push,
    last_of, lines, lines_of, opt, plain, quote, quoted, res, rfind, same, same_text, shell_inert,
    split, split_by, starts_with, strip_prefix, to_chars, to_text, trim, trimmed, views,
    without_prefix,
};

use crate::theme::{bytes_text, fmt_bytes};

verus! {

/// A row of a package listing: package, status, installed size in KiB.
pub type RowView = (Seq<char>, Seq<char>, u64);

/// The row that a listing line stands for: tab-separated package and status,
/// and a size that counts as zero when it cannot be read.
pub open spec fn dpkg_row(line: Seq<char>) -> Option<RowView> {
    let cols = split_by(line, "\t"@);
    if cols.len() < 2 || trimmed(cols[0]).len() == 0 {
        None
    } else {
        let size = if cols.len() > 2 {
            match bounded_of(trimmed(cols[2]), u64::MAX as nat) {
                Some(v) => v as u64,
                None => 0,
            }
        } else {
            0
        };
        Some((trimmed(cols[0]), trimmed(cols[1]), size))
    }
}

/// The rows of a package listing.
pub open spec fn dpkg_rows(out: Seq<char>) -> Seq<RowView> {
    kept(lines_of(out), |line: Seq<char>| dpkg_row(line))
}

pub fn parse_dpkg_rows(out: &str) -> (r: Vec<(String, String, u64)>)
    ensures
        views(r@) == dpkg_rows(out@),
{
    broadcast use lemma_views_push;

    let all = to_chars(out);
    let ls = lines(&all);
    let mut r: Vec<(String, String, u64)> = Vec::new();
    let ghost vs = lines_of(out@);
    let ghost f = |line: Seq<char>| dpkg_row(line);
    let mut i: usize = 0;
    proof {
        reveal_strlit("\t");
        lemma_kept_ends(views(r@), vs, f);
        assert(views(r@) =~= Seq::<RowView>::empty());
    }
    while i < ls.len()
        invariant
            i <= ls@.len(),
            views(ls@) == vs,
            f == (|line: Seq<char>| dpkg_row(line)),
            "\t"@.len() == 1,
            views(r@) + kept(vs.skip(i as int), f) == kept(vs, f),
        decreases ls@.len() - i,
    {
        proof {
            lemma_kept_step(views(r@), vs, i as int, f);
        }
        let cols = split(ls[i], "\t");
        assert(ls@[i as int]@ == vs[i as int]);
        if cols.len() >= 2 {
            assert(views(cols@)[0] == cols@[0]@);
            assert(views(cols@)[1] == cols@[1]@);
            let pkg = trim(cols[0]);
            let status = trim(cols[1]);
            let size: u64 = if cols.len() > 2 {
                assert(views(cols@)[2] == cols@[2]@);
                match parse_u64(trim(cols[2])) {
                    Some(v) => v,
                    None => 0,
                }
            } else {
                0
            };
            if pkg.len() > 0 {
                r.push((to_text(pkg), to_text(status), size));
            }
        }
        i += 1;
    }
    proof {
        lemma_kept_ends(views(r@), vs, f);
    }
    r
}

// --- names and versions -----------------------------------------------------

/// Whether text begins with an ASCII digit.
pub open spec fn starts_with_digit(s: Seq<char>) -> bool {
    s.len() > 0 && is_digit(s[0])
}

/// A meta or flavour package: what follows its kernel prefix does not start
/// with a version digit.
pub open spec fn names_meta(pkg: Seq<char>) -> bool {
    match without_prefix(pkg, "linux-image-"@) {
        Some(rest) => !starts_with_digit(rest),
        None => match without_prefix(pkg, "linux-modules-"@) {
            Some(rest) => !starts_with_digit(rest),
            None => match without_prefix(pkg, "linux-headers-"@) {
                Some(rest) => !starts_with_digit(rest),
                None => false,
            },
        },
    }
}

fn meta(pkg: &[char]) -> (r: bool)
    ensures
        r == names_meta(pkg@),
{
    let rest = match strip_prefix(pkg, "linux-image-") {
        Some(rest) => rest,
        None => match strip_prefix(pkg, "linux-modules-") {
            Some(rest) => rest,
            None => match strip_prefix(pkg, "linux-headers-") {
                Some(rest) => rest,
                None => {
                    return false;
                },
            },
        },
    };
    !(rest.len() > 0 && digit(rest[0]))
}

pub fn is_meta(pkg: &str) -> (r: bool)
    ensures
        r == names_meta(pkg@),
{
    meta(&to_chars(pkg))
}

/// How many digits `s` begins with.
pub open spec fn digit_run(s: Seq<char>) -> nat
    decreases s.len(),
{
    if starts_with_digit(s) {
        1 + digit_run(s.skip(1))
    } else {
        0
    }
}

proof fn lemma_digit_run(s: Seq<char>)
    ensures
        digit_run(s) <= s.len(),
        forall|k: int| 0 <= k < digit_run(s) ==> is_digit(#[trigger] s[k]),
    decreases s.len(),
{
    if starts_with_digit(s) {
        lemma_digit_run(s.skip(1));
        assert forall|k: int| 0 <= k < digit_run(s) implies is_digit(#[trigger] s[k]) by {
            if k > 0 {
                assert(s[k] == s.skip(1)[k - 1]);
            }
        }
    }
}

/// The number a digit run stands for, at most `u64::MAX`.
pub open spec fn capped(n: nat) -> u64 {
    if n > u64::MAX {
        u64::MAX
    } else {
        n as u64
    }
}

/// The sorting key of a kernel release: every maximal digit run as a number.
pub open spec fn kver(v: Seq<char>) -> Seq<u64>
    decreases v.len(),
{
    if v.len() == 0 {
        Seq::empty()
    } else if is_digit(v[0]) {
        let n = digit_run(v) as int;
        if 0 < n <= v.len() {
            seq![capped(value_of(v.take(n)))] + kver(v.skip(n))
        } else {
            Seq::empty()
        }
    } else {
        kver(v.skip(1))
    }
}

fn key_of(v: &[char]) -> (r: Vec<u64>)
    ensures
        r@ == kver(v@),
{
    let mut key: Vec<u64> = Vec::new();
    let mut i: usize = 0;
    assert(v@.skip(0) =~= v@);
    assert(key@ + kver(v@) =~= kver(v@));
    while i < v.len()
        invariant
            i <= v@.len(),
            key@ + kver(v@.skip(i as int)) == kver(v@),
        decreases v@.len() - i,
    {
        let ghost rest = v@.skip(i as int);
        if digit(v[i]) {
            let start = i;
            let mut n: u64 = 0;
            assert(rest.take(0) =~= Seq::<char>::empty());
            while i < v.len() && digit(v[i])
                invariant
                    start <= i <= v@.len(),
                    rest == v@.skip(start as int),
                    digit_run(rest) == (i - start) + digit_run(v@.skip(i as int)),
                    n == capped(value_of(rest.take(i - start))),
                decreases v@.len() - i,
            {
                let d: u64 = (v[i] as u32 - '0' as u32) as u64;
                let ghost upto = rest.take(i - start + 1);
                assert(upto.drop_last() =~= rest.take(i - start));
                assert(upto.last() == v@[i as int]);
                n = if n <= (u64::MAX - d) / 10 {
                    n * 10 + d
                } else {
                    u64::MAX
                };
                assert(v@.skip(i as int).skip(1) =~= v@.skip(i as int + 1));
                i += 1;
            }
            proof {
                lemma_digit_run(rest);
            }
            let ghost len = (i - start) as int;
            let ghost before = key@;
            key.push(n);
            assert(rest.skip(len) =~= v@.skip(i as int));
            assert(key@ + kver(rest.skip(len)) =~= before + (seq![n] + kver(rest.skip(len))));
        } else {
            assert(rest.skip(1) =~= v@.skip(i as int + 1));
            i += 1;
        }
    }
    assert(key@ + kver(v@.skip(i as int)) =~= key@);
    key
}

pub fn kver_key(v: &str) -> (r: Vec<u64>)
    ensures
        r@ == kver(v@),
{
    key_of(&to_chars(v))
}

/// A release without its trailing flavour segments: `6.8.0-45-generic` gives
/// `6.8.0-45`.
pub open spec fn base_of(v: Seq<char>) -> Seq<char>
    decreases v.len(),
{
    match last_of(v, '-') {
        Some(i) => if !(0 <= i < v.len()) || starts_with_digit(v.skip(i + 1)) {
            v
        } else {
            base_of(v.take(i))
        },
        None => v,
    }
}

fn base<'a>(v: &'a [char]) -> (r: &'a [char])
    ensures
        r@ == base_of(v@),
{
    let mut b: &'a [char] = v;
    loop
        invariant
            base_of(b@) == base_of(v@),
        decreases b@.len(),
    {
        match rfind(b, '-') {
            Some(i) => {
                let n = b.len();
                if i + 1 < n && digit(b[i + 1]) {
                    return b;
                }
                let ghost whole = b@;
                b = vstd::slice::slice_subrange(b, 0, i);
                assert(b@ =~= whole.take(i as int));
            },
            None => {
                return b;
            },
        }
    }
}

pub fn base_version(v: &str) -> (r: String)
    ensures
        r@ == base_of(v@),
{
    let c = to_chars(v);
    to_text(base(&c))
}

/// Whether release `a` sorts ahead of release `b`: by key, then by text, the
/// greater first.
pub open spec fn newer(a: Seq<char>, b: Seq<char>) -> bool {
    key_lt(kver(b), kver(a)) || (kver(a) == kver(b) && text_lt(b, a))
}

/// `newer` is a strict total order on releases.
pub proof fn law_newer_order(a: Seq<char>, b: Seq<char>, c: Seq<char>)
    ensures
        !newer(a, a),
        newer(a, b) && newer(b, c) ==> newer(a, c),
        newer(a, b) ==> !newer(b, a),
        newer(a, b) || newer(b, a) || a == b,
{
    law_key_order(kver(c), kver(b), kver(a));
    law_key_order(kver(a), kver(b), kver(a));
    law_key_order(kver(b), kver(a), kver(b));
    law_text_order(c, b, a);
    law_text_order(a, b, a);
    law_text_order(b, a, b);
}

/// A kernel release, sorted newest first.
pub struct Release {
    pub version: String,
}

impl View for Release {
    type V = Seq<char>;

    open spec fn view(&self) -> Seq<char> {
        self.version@
    }
}

impl Ranked for Release {
    open spec fn precedes(a: Seq<char>, b: Seq<char>) -> bool {
        newer(a, b)
    }

    fn before(&self, other: &Self) -> (r: bool) {
        let a = to_chars(self.version.as_str());
        let b = to_chars(other.version.as_str());
        let ka = key_of(&a);
        let kb = key_of(&b);
        if key_less(&kb, &ka) {
            return true;
        }
        proof {
            law_key_order(kver(a@), kver(b@), kver(a@));
        }
        !key_less(&ka, &kb) && text_less(&b, &a)
    }

    proof fn law_precedes(a: Seq<char>, b: Seq<char>, c: Seq<char>) {
        law_newer_order(a, b, c);
        law_newer_order(b, a, c);
    }
}

// --- grouping ---------------------------------------------------------------

/// One installed kernel.
pub struct Kernel {
    /// Kernel release, as the running kernel reports it.
    pub version: String,
    /// Installed packages that go with it.
    pub packages: Vec<String>,
    /// Summed installed size in KiB.
    pub size_kb: u64,
    pub running: bool,
    pub newest: bool,
    pub protected: bool,
}

#[verifier::ext_equal]
pub struct KernelView {
    pub version: Seq<char>,
    pub packages: Seq<Seq<char>>,
    pub size_kb: nat,
    pub running: bool,
    pub newest: bool,
    pub protected: bool,
}

impl View for Kernel {
    type V = KernelView;

    open spec fn view(&self) -> KernelView {
        KernelView {
            version: self.version@,
            packages: views(self.packages@),
            size_kb: self.size_kb as nat,
            running: self.running,
            newest: self.newest,
            protected: self.protected,
        }
    }
}

/// The fully installed packages among some rows, with their sizes.
pub open spec fn installed_of(rows: Seq<RowView>) -> Seq<(Seq<char>, u64)> {
    kept(
        rows,
        |row: RowView|
            if trimmed(row.1) == "ii"@ {
                Some((row.0, row.2))
            } else {
                None
            },
    )
}

/// The kernel release that a package carries, if it is a kernel image of one.
pub open spec fn found_version(pkg: Seq<char>) -> Option<Seq<char>> {
    match without_prefix(pkg, "linux-image-"@) {
        Some(v) => if !names_meta(pkg) && is_plain(v, ".-"@, 100) {
            Some(v)
        } else {
            None
        },
        None => None,
    }
}

/// The releases that the installed packages carry, as often as they do.
pub open spec fn versions_found(rows: Seq<RowView>) -> Seq<Seq<char>> {
    kept(installed_of(rows), |p: (Seq<char>, u64)| found_version(p.0))
}

/// `s` without repetitions: each item at its first place.
pub open spec fn distinct<A>(s: Seq<A>) -> Seq<A>
    decreases s.len(),
{
    if s.len() == 0 {
        Seq::empty()
    } else {
        let d = distinct(s.drop_last());
        if d.contains(s.last()) {
            d
        } else {
            d.push(s.last())
        }
    }
}

pub proof fn lemma_distinct<A>(s: Seq<A>)
    ensures
        distinct(s).no_duplicates(),
        forall|x: A| #[trigger] distinct(s).contains(x) <==> s.contains(x),
    decreases s.len(),
{
    if s.len() > 0 {
        lemma_distinct(s.drop_last());
        let d = distinct(s.drop_last());
        assert forall|x: A| #[trigger] distinct(s).contains(x) <==> s.contains(x) by {
            if s.contains(x) {
                let k = choose|k: int| 0 <= k < s.len() && s[k] == x;
                if k < s.len() - 1 {
                    assert(s.drop_last()[k] == x);
                    assert(s.drop_last().contains(x));
                    assert(d.contains(x));
                    let m = choose|m: int| 0 <= m < d.len() && d[m] == x;
                    assert(distinct(s)[m] == x);
                } else {
                    if !d.contains(x) {
                        assert(distinct(s)[d.len() as int] == x);
                    }
                }
            }
            if distinct(s).contains(x) {
                let k = choose|k: int| 0 <= k < distinct(s).len() && distinct(s)[k] == x;
                if k < d.len() {
                    assert(d[k] == x);
                    assert(d.contains(x));
                    assert(s.drop_last().contains(x));
                    let m = choose|m: int| 0 <= m < s.drop_last().len() && s.drop_last()[m] == x;
                    assert(s[m] == x);
                } else {
                    assert(s[s.len() - 1] == x);
                }
            }
        }
    }
}

/// The installed releases, newest first, each once.
pub open spec fn installed_versions(rows: Seq<RowView>) -> Seq<Seq<char>> {
    sorted_by(distinct(versions_found(rows)), order_of::<Release>())
}

/// Whether package `p` goes with release `v`.
pub open spec fn companion(v: Seq<char>, p: Seq<char>) -> bool {
    ||| p == "linux-image-"@ + v
    ||| p == "linux-modules-"@ + v
    ||| p == "linux-modules-extra-"@ + v
    ||| p == "linux-headers-"@ + v
    ||| p == "linux-headers-"@ + base_of(v)
}

/// The installed packages that go with release `v`.
pub open spec fn packages_for(installed: Seq<(Seq<char>, u64)>, v: Seq<char>) -> Seq<Seq<char>> {
    kept(
        installed,
        |p: (Seq<char>, u64)|
            if companion(v, p.0) {
                Some(p.0)
            } else {
                None
            },
    )
}

/// The sizes of the installed packages that go with release `v`.
pub open spec fn sizes_for(installed: Seq<(Seq<char>, u64)>, v: Seq<char>) -> Seq<u64> {
    kept(
        installed,
        |p: (Seq<char>, u64)|
            if companion(v, p.0) {
                Some(p.1)
            } else {
                None
            },
    )
}

/// No installed release is newer than `v`.
pub open spec fn is_newest(rows: Seq<RowView>, v: Seq<char>) -> bool {
    forall|u: Seq<char>| #[trigger] versions_found(rows).contains(u) ==> !newer(u, v)
}

/// What the listing says of release `v`.
pub open spec fn kernel_for(rows: Seq<RowView>, running: Seq<char>, v: Seq<char>) -> KernelView {
    let installed = installed_of(rows);
    KernelView {
        version: v,
        packages: packages_for(installed, v),
        size_kb: sum_of(sizes_for(installed, v)),
        running: v == running,
        newest: is_newest(rows, v),
        protected: v == running || is_newest(rows, v),
    }
}

/// The installed kernels, newest first.
pub open spec fn kernels_of(rows: Seq<RowView>, running: Seq<char>) -> Seq<KernelView> {
    installed_versions(rows).map_values(|v: Seq<char>| kernel_for(rows, running, v))
}

/// Each kernel's package sizes add up within 64 bits.
pub open spec fn sizes_fit(rows: Seq<RowView>) -> bool {
    forall|v: Seq<char>| #[trigger]
        installed_versions(rows).contains(v) ==> sum_of(sizes_for(installed_of(rows), v)) <= u64::MAX
}

fn installed(rows: &[(String, String, u64)]) -> (r: Vec<(Vec<char>, u64)>)
    ensures
        views(r@) == installed_of(views(rows@)),
{
    broadcast use lemma_views_push;

    let mut r: Vec<(Vec<char>, u64)> = Vec::new();
    let ghost vs = views(rows@);
    let ghost f = |row: RowView|
        if trimmed(row.1) == "ii"@ {
            Some((row.0, row.2))
        } else {
            None
        };
    let mut i: usize = 0;
    proof {
        lemma_kept_ends(views(r@), vs, f);
        assert(views(r@) =~= Seq::<(Seq<char>, u64)>::empty());
    }
    while i < rows.len()
        invariant
            i <= rows@.len(),
            vs == views(rows@),
            f == (|row: RowView|
                if trimmed(row.1) == "ii"@ {
                    Some((row.0, row.2))
                } else {
                    None
                }),
            views(r@) + kept(vs.skip(i as int), f) == kept(vs, f),
        decreases rows@.len() - i,
    {
        proof {
            lemma_kept_step(views(r@), vs, i as int, f);
        }
        let row = &rows[i];
        assert(vs[i as int] == row@);
        let status = to_chars(row.1.as_str());
        if is_text(trim(&status), "ii") {
            r.push((to_chars(row.0.as_str()), row.2));
        }
        i += 1;
    }
    proof {
        lemma_kept_ends(views(r@), vs, f);
    }
    r
}

fn found(installed: &[(Vec<char>, u64)]) -> (r: Vec<String>)
    ensures
        views(r@) == kept(views(installed@), |p: (Seq<char>, u64)| found_version(p.0)),
{
    broadcast use lemma_views_push;

    let mut r: Vec<String> = Vec::new();
    let ghost vs = views(installed@);
    let ghost f = |p: (Seq<char>, u64)| found_version(p.0);
    let mut i: usize = 0;
    proof {
        lemma_kept_ends(views(r@), vs, f);
        assert(views(r@) =~= Seq::<Seq<char>>::empty());
    }
    while i < installed.len()
        invariant
            i <= installed@.len(),
            vs == views(installed@),
            f == (|p: (Seq<char>, u64)| found_version(p.0)),
            views(r@) + kept(vs.skip(i as int), f) == kept(vs, f),
        decreases installed@.len() - i,
    {
        proof {
            lemma_kept_step(views(r@), vs, i as int, f);
        }
        let p = &installed[i];
        assert(vs[i as int] == p@);
        if let Some(v) = strip_prefix(&p.0, "linux-image-") {
            if !meta(&p.0) && plain(v, ".-", 100) {
                r.push(to_text(v));
            }
        }
        i += 1;
    }
    proof {
        lemma_kept_ends(views(r@), vs, f);
    }
    r
}

fn listed(names: &[Release], v: &str) -> (r: bool)
    ensures
        r == views(names@).contains(v@),
{
    let mut i: usize = 0;
    while i < names.len()
        invariant
            i <= names@.len(),
            forall|k: int| 0 <= k < i ==> names@[k]@ != v@,
        decreases names@.len() - i,
    {
        if same_text(names[i].version.as_str(), v) {
            assert(views(names@)[i as int] == v@);
            return true;
        }
        i += 1;
    }
    assert forall|k: int| 0 <= k < views(names@).len() implies views(names@)[k] != v@ by {
        assert(views(names@)[k] == names@[k]@);
    }
    false
}

fn without_repeats(found: &[String]) -> (r: Vec<Release>)
    ensures
        views(r@) == distinct(views(found@)),
{
    broadcast use lemma_views_push;

    let mut r: Vec<Release> = Vec::new();
    let ghost vs = views(found@);
    let mut i: usize = 0;
    assert(views(r@) =~= distinct(vs.take(0)));
    while i < found.len()
        invariant
            i <= found@.len(),
            vs == views(found@),
            views(r@) == distinct(vs.take(i as int)),
        decreases found@.len() - i,
    {
        let v = &found[i];
        assert(vs.take(i as int + 1).drop_last() =~= vs.take(i as int));
        assert(vs.take(i as int + 1).last() == v@);
        if !listed(&r, v.as_str()) {
            r.push(Release { version: v.clone() });
        }
        i += 1;
    }
    assert(vs.take(i as int) =~= vs);
    r
}

fn prefixed(p: &[char], prefix: &str, v: &[char]) -> (r: bool)
    ensures
        r == (p@ == prefix@ + v@),
{
    match strip_prefix(p, prefix) {
        Some(rest) => {
            assert(p@ =~= prefix@ + rest@);
            if same(rest, v) {
                true
            } else {
                assert((prefix@ + v@).skip(prefix@.len() as int) =~= v@);
                false
            }
        },
        None => {
            assert(prefix@.is_prefix_of(prefix@ + v@)) by {
                assert((prefix@ + v@).subrange(0, prefix@.len() as int) =~= prefix@);
            }
            false
        },
    }
}

fn goes_with(v: &[char], p: &[char]) -> (r: bool)
    ensures
        r == companion(v@, p@),
{
    prefixed(p, "linux-image-", v) || prefixed(p, "linux-modules-", v) || prefixed(
        p,
        "linux-modules-extra-",
        v,
    ) || prefixed(p, "linux-headers-", v) || prefixed(p, "linux-headers-", base(v))
}

fn gather(installed: &[(Vec<char>, u64)], v: &[char]) -> (r: (Vec<String>, Vec<u64>))
    ensures
        views(r.0@) == packages_for(views(installed@), v@),
        r.1@ == sizes_for(views(installed@), v@),
{
    broadcast use lemma_views_push;

    let mut names: Vec<String> = Vec::new();
    let mut sizes: Vec<u64> = Vec::new();
    let ghost vs = views(installed@);
    let ghost f = |p: (Seq<char>, u64)|
        if companion(v@, p.0) {
            Some(p.0)
        } else {
            None
        };
    let ghost g = |p: (Seq<char>, u64)|
        if companion(v@, p.0) {
            Some(p.1)
        } else {
            None
        };
    let mut i: usize = 0;
    proof {
        lemma_kept_ends(views(names@), vs, f);
        lemma_kept_ends(sizes@, vs, g);
        assert(views(names@) =~= Seq::<Seq<char>>::empty());
    }
    while i < installed.len()
        invariant
            i <= installed@.len(),
            vs == views(installed@),
            f == (|p: (Seq<char>, u64)|
                if companion(v@, p.0) {
                    Some(p.0)
                } else {
                    None
                }),
            g == (|p: (Seq<char>, u64)|
                if companion(v@, p.0) {
                    Some(p.1)
                } else {
                    None
                }),
            views(names@) + kept(vs.skip(i as int), f) == kept(vs, f),
            sizes@ + kept(vs.skip(i as int), g) == kept(vs, g),
        decreases installed@.len() - i,
    {
        proof {
            lemma_kept_step(views(names@), vs, i as int, f);
            lemma_kept_step(sizes@, vs, i as int, g);
        }
        let p = &installed[i];
        assert(vs[i as int] == p@);
        if goes_with(v, &p.0) {
            names.push(to_text(&p.0));
            sizes.push(p.1);
        }
        i += 1;
    }
    proof {
        lemma_kept_ends(views(names@), vs, f);
        lemma_kept_ends(sizes@, vs, g);
    }
    (names, sizes)
}

/// In a list without repetitions sorted newest first, the first release is
/// the only one that no other is newer than.
proof fn lemma_first_is_newest(rows: Seq<RowView>)
    ensures
        ({
            let vs = installed_versions(rows);
            &&& vs.no_duplicates()
            &&& forall|u: Seq<char>| #[trigger] vs.contains(u) <==> versions_found(rows).contains(u)
            &&& forall|i: int|
                0 <= i < vs.len() ==> (#[trigger] is_newest(rows, vs[i]) <==> i == 0)
            &&& forall|i: int, j: int| 0 <= i < j < vs.len() ==> newer(vs[i], vs[j])
        }),
{
    broadcast use vstd::seq_lib::group_to_multiset_ensures;

    let d = distinct(versions_found(rows));
    let lt = order_of::<Release>();
    let vs = installed_versions(rows);
    assert(vs == sorted_by(d, lt));
    lemma_distinct(versions_found(rows));
    lemma_ranked_weak::<Release>();
    law_sort_keeps_items(d, lt);
    law_sort_orders(d, lt);
    d.lemma_multiset_has_no_duplicates();
    assert forall|x: Seq<char>| #[trigger] vs.to_multiset().contains(x) implies vs.to_multiset().count(
        x,
    ) == 1 by {
        assert(d.to_multiset().contains(x));
    }
    vs.lemma_multiset_has_no_duplicates_conv();
    assert forall|u: Seq<char>| #[trigger] vs.contains(u) <==> versions_found(rows).contains(u) by {
        assert(vs.contains(u) <==> vs.to_multiset().contains(u));
        assert(d.contains(u) <==> d.to_multiset().contains(u));
    }
    assert forall|i: int, j: int| 0 <= i < j < vs.len() implies newer(vs[i], vs[j]) by {
        assert(!lt(vs[j], vs[i]));
        law_newer_order(vs[i], vs[j], vs[i]);
    }
    assert forall|i: int| 0 <= i < vs.len() implies (#[trigger] is_newest(rows, vs[i]) <==> i
        == 0) by {
        if i == 0 {
            assert forall|u: Seq<char>| #[trigger] versions_found(rows).contains(u) implies !newer(
                u,
                vs[0],
            ) by {
                assert(vs.contains(u));
                let k = choose|k: int| 0 <= k < vs.len() && vs[k] == u;
                law_newer_order(vs[0], vs[k], vs[0]);
                if k == 0 {
                    law_newer_order(u, u, u);
                }
            }
        } else {
            assert(vs.contains(vs[0]));
            assert(newer(vs[0], vs[i]));
        }
    }
}

/// Groups installed rows into kernels, newest first, and marks protection.
pub fn build_kernels(rows: &[(String, String, u64)], running: &str) -> (r: Vec<Kernel>)
    requires
        sizes_fit(views(rows@)),
    ensures
        views(r@) == kernels_of(views(rows@), running@),
{
    broadcast use lemma_views_push;

    let ghost rs = views(rows@);
    let inst = installed(rows);
    let all = found(&inst);
    let releases = stable_sort(without_repeats(&all));
    let ghost vs = installed_versions(rs);
    assert(views(releases@) == vs);
    proof {
        lemma_first_is_newest(rs);
    }
    let mut out: Vec<Kernel> = Vec::new();
    let mut i: usize = 0;
    let ghost f = |v: Seq<char>| kernel_for(rs, running@, v);
    assert(views(out@) =~= vs.take(0).map_values(f));
    while i < releases.len()
        invariant
            i <= releases@.len(),
            rs == views(rows@),
            vs == installed_versions(rs),
            views(releases@) == vs,
            views(inst@) == installed_of(rs),
            sizes_fit(rs),
            f == (|v: Seq<char>| kernel_for(rs, running@, v)),
            forall|k: int| 0 <= k < vs.len() ==> (#[trigger] is_newest(rs, vs[k]) <==> k == 0),
            views(out@) == vs.take(i as int).map_values(f),
        decreases releases@.len() - i,
    {
        let version = releases[i].version.clone();
        assert(version@ == vs[i as int]);
        assert(vs.contains(vs[i as int]));
        let chars = to_chars(version.as_str());
        let (packages, sizes) = gather(&inst, &chars);
        let size_kb: u64 = match checked_sum(&sizes) {
            Some(s) => s,
            None => 0,
        };
        let is_running = same_text(version.as_str(), running);
        let newest = i == 0;
        assert(is_newest(rs, vs[i as int]) <==> i == 0);
        let k = Kernel {
            version,
            packages,
            size_kb,
            running: is_running,
            newest,
            protected: is_running || newest,
        };
        assert(k@ =~= f(vs[i as int]));
        out.push(k);
        i += 1;
        assert(vs.take(i as int).map_values(f) =~= vs.take(i as int - 1).map_values(f).push(
            f(vs[i as int - 1]),
        ));
    }
    assert(vs.take(i as int) =~= vs);
    out
}

/// A listed kernel is protected exactly when it runs or none is newer, the
/// list is newest first, and every installed release stands in it once.
pub proof fn law_kernels_listed(rows: Seq<RowView>, running: Seq<char>)
    ensures
        ({
            let ks = kernels_of(rows, running);
            &&& forall|i: int|
                0 <= i < ks.len() ==> (#[trigger] ks[i]).protected == (ks[i].running
                    || ks[i].newest) && ks[i].running == (ks[i].version == running)
                    && ks[i].newest == (i == 0)
            &&& forall|i: int, j: int|
                0 <= i < j < ks.len() ==> newer(
                    (#[trigger] ks[i]).version,
                    (#[trigger] ks[j]).version,
                )
            &&& forall|v: Seq<char>| #[trigger]
                versions_found(rows).contains(v) ==> exists|i: int|
                    0 <= i < ks.len() && (#[trigger] ks[i]).version == v
        }),
{
    lemma_first_is_newest(rows);
    let vs = installed_versions(rows);
    let ks = kernels_of(rows, running);
    assert forall|v: Seq<char>| #[trigger] versions_found(rows).contains(v) implies exists|i: int|
        0 <= i < ks.len() && (#[trigger] ks[i]).version == v by {
        assert(vs.contains(v));
        let i = choose|i: int| 0 <= i < vs.len() && vs[i] == v;
        assert(ks[i].version == v);
    }
    assert forall|i: int| 0 <= i < ks.len() implies (#[trigger] ks[i]).newest == (i == 0) by {
        assert(is_newest(rows, vs[i]) <==> i == 0);
    }
}

// --- listing ----------------------------------------------------------------

/// The listing drawn from the running release and the package rows; any
/// failure to read either leaves nothing listed.
pub open spec fn listing(
    osrelease: Result<Seq<char>, Seq<char>>,
    dpkg: Result<Seq<char>, Seq<char>>,
) -> Result<Seq<KernelView>, Seq<char>> {
    match osrelease {
        Err(e) => Err("Couldn't read the running kernel version: "@ + e),
        Ok(text) => if trimmed(text).len() == 0 {
            Err("Couldn't determine the running kernel."@)
        } else {
            match dpkg {
                Err(e) => Err("Couldn't query installed kernels: "@ + e),
                Ok(out) => {
                    let ks = kernels_of(dpkg_rows(out), trimmed(text));
                    if ks.len() == 0 {
                        Err("No installed kernel packages found."@)
                    } else {
                        Ok(ks)
                    }
                },
            }
        },
    }
}

/// The view of a listing.
pub open spec fn listing_view(r: Result<Vec<Kernel>, String>) -> Result<
    Seq<KernelView>,
    Seq<char>,
> {
    match r {
        Ok(ks) => Ok(views(ks@)),
        Err(e) => Err(e@),
    }
}

/// Lists the installed kernels from what was read: the running release and
/// the package query's output, each with the reader's message on failure.
pub fn enumerate(osrelease: Result<String, String>, dpkg: Result<String, String>) -> (r: Result<
    Vec<Kernel>,
    String,
>)
    requires
        dpkg matches Ok(out) ==> sizes_fit(dpkg_rows(out@)),
    ensures
        listing_view(r) == listing(res(osrelease), res(dpkg)),
{
    let text = match osrelease {
        Ok(text) => text,
        Err(e) => {
            let mut m = "Couldn't read the running kernel version: ".to_owned();
            m.append(e.as_str());
            return Err(m);
        },
    };
    let chars = to_chars(text.as_str());
    let running = trim(&chars);
    if running.len() == 0 {
        return Err("Couldn't determine the running kernel.".to_owned());
    }
    let out = match dpkg {
        Ok(out) => out,
        Err(e) => {
            let mut m = "Couldn't query installed kernels: ".to_owned();
            m.append(e.as_str());
            return Err(m);
        },
    };
    let rows = parse_dpkg_rows(out.as_str());
    let kernels = build_kernels(&rows, to_text(running).as_str());
    assert(views(kernels@).len() == kernels@.len());
    if kernels.len() == 0 {
        return Err("No installed kernel packages found.".to_owned());
    }
    Ok(kernels)
}

// --- removal ----------------------------------------------------------------

/// The first kernel of the given release.
pub open spec fn kernel_named(ks: Seq<KernelView>, version: Seq<char>) -> Option<KernelView>
    decreases ks.len(),
{
    if ks.len() == 0 {
        None
    } else if ks[0].version == version {
        Some(ks[0])
    } else {
        kernel_named(ks.skip(1), version)
    }
}

/// A package that a kernel removal may name.
pub open spec fn is_kernel_package(p: Seq<char>) -> bool {
    is_pkg_name(p) && ("linux-image-"@.is_prefix_of(p) || "linux-modules"@.is_prefix_of(p)
        || "linux-headers-"@.is_prefix_of(p))
}

/// The first package that a kernel removal may not name.
pub open spec fn first_suspicious(pkgs: Seq<Seq<char>>) -> Option<Seq<char>>
    decreases pkgs.len(),
{
    if pkgs.len() == 0 {
        None
    } else if !is_kernel_package(pkgs[0]) {
        Some(pkgs[0])
    } else {
        first_suspicious(pkgs.skip(1))
    }
}

/// The script that purges one kernel's packages, or why it is refused.
pub open spec fn removal_plan(ks: Seq<KernelView>, version: Seq<char>) -> Result<
    Seq<char>,
    Seq<char>,
> {
    match kernel_named(ks, version) {
        None => Err(version + " is not installed."@),
        Some(k) => if k.protected || k.packages.len() == 0 {
            Err(version + " is protected (running or newest) and can't be removed."@)
        } else {
            match first_suspicious(k.packages) {
                Some(p) => Err("Refusing suspicious package: "@ + quoted(p)),
                None => Ok(apt_script_of("purge"@, k.packages)),
            }
        },
    }
}

fn suspicious(pkgs: &[String]) -> (r: Option<usize>)
    ensures
        (match r {
            Some(i) => i < pkgs@.len() && first_suspicious(views(pkgs@)) == Some(pkgs@[i as int]@),
            None => first_suspicious(views(pkgs@)) is None,
        }),
{
    let ghost vs = views(pkgs@);
    let mut i: usize = 0;
    assert(vs.skip(0) =~= vs);
    while i < pkgs.len()
        invariant
            i <= pkgs@.len(),
            vs == views(pkgs@),
            first_suspicious(vs) == first_suspicious(vs.skip(i as int)),
        decreases pkgs@.len() - i,
    {
        let p = &pkgs[i];
        assert(vs.skip(i as int)[0] == p@);
        let c = to_chars(p.as_str());
        let prefixed = starts_with(&c, "linux-image-") || starts_with(&c, "linux-modules")
            || starts_with(&c, "linux-headers-");
        if !valid_pkg(p.as_str()) || !prefixed {
            return Some(i);
        }
        assert(vs.skip(i as int).skip(1) =~= vs.skip(i as int + 1));
        i += 1;
    }
    None
}

fn position(kernels: &[Kernel], version: &str) -> (r: Option<usize>)
    ensures
        (match r {
            Some(i) => i < kernels@.len() && kernel_named(views(kernels@), version@) == Some(
                kernels@[i as int]@,
            ),
            None => kernel_named(views(kernels@), version@) is None,
        }),
{
    let ghost vs = views(kernels@);
    let mut i: usize = 0;
    assert(vs.skip(0) =~= vs);
    while i < kernels.len()
        invariant
            i <= kernels@.len(),
            vs == views(kernels@),
            kernel_named(vs, version@) == kernel_named(vs.skip(i as int), version@),
        decreases kernels@.len() - i,
    {
        assert(vs.skip(i as int)[0] == kernels@[i as int]@);
        if same_text(kernels[i].version.as_str(), version) {
            return Some(i);
        }
        assert(vs.skip(i as int).skip(1) =~= vs.skip(i as int + 1));
        i += 1;
    }
    None
}

/// Plans the removal of one kernel from a fresh listing.
pub fn plan_removal(kernels: &[Kernel], version: &str) -> (r: Result<String, String>)
    ensures
        res(r) == removal_plan(views(kernels@), version@),
{
    let k = match position(kernels, version) {
        Some(i) => &kernels[i],
        None => {
            let mut m = version.to_owned();
            m.append(" is not installed.");
            return Err(m);
        },
    };
    if k.protected || k.packages.len() == 0 {
        let mut m = version.to_owned();
        m.append(" is protected (running or newest) and can't be removed.");
        return Err(m);
    }
    if let Some(i) = suspicious(&k.packages) {
        let mut m = "Refusing suspicious package: ".to_owned();
        let q = quote(k.packages[i].as_str());
        m.append(q.as_str());
        return Err(m);
    }
    Ok(apt_script("purge", &k.packages))
}

proof fn lemma_kernel_named(ks: Seq<KernelView>, version: Seq<char>)
    ensures
        (match kernel_named(ks, version) {
            Some(k) => k.version == version && ks.contains(k),
            None => forall|i: int| 0 <= i < ks.len() ==> (#[trigger] ks[i]).version != version,
        }),
    decreases ks.len(),
{
    if ks.len() > 0 && ks[0].version != version {
        lemma_kernel_named(ks.skip(1), version);
        match kernel_named(ks.skip(1), version) {
            Some(k) => {
                let i = choose|i: int| 0 <= i < ks.skip(1).len() && ks.skip(1)[i] == k;
                assert(ks[i + 1] == k);
            },
            None => {
                assert forall|i: int| 0 <= i < ks.len() implies (#[trigger] ks[i]).version
                    != version by {
                    if i > 0 {
                        assert(ks[i] == ks.skip(1)[i - 1]);
                    }
                }
            },
        }
    }
}

proof fn lemma_first_suspicious(pkgs: Seq<Seq<char>>)
    ensures
        first_suspicious(pkgs) is None ==> forall|i: int|
            0 <= i < pkgs.len() ==> is_kernel_package(#[trigger] pkgs[i]),
    decreases pkgs.len(),
{
    if pkgs.len() > 0 && is_kernel_package(pkgs[0]) {
        lemma_first_suspicious(pkgs.skip(1));
        if first_suspicious(pkgs) is None {
            assert forall|i: int| 0 <= i < pkgs.len() implies is_kernel_package(
                #[trigger] pkgs[i],
            ) by {
                if i > 0 {
                    assert(pkgs[i] == pkgs.skip(1)[i - 1]);
                }
            }
        }
    }
}

/// The running kernel is never removed, whatever is installed.
pub proof fn law_running_kernel_stays(rows: Seq<RowView>, running: Seq<char>)
    ensures
        removal_plan(kernels_of(rows, running), running) is Err,
{
    lemma_kernel_named(kernels_of(rows, running), running);
}

/// A release that no installed one is newer than is never removed.
pub proof fn law_newest_kernel_stays(rows: Seq<RowView>, running: Seq<char>, v: Seq<char>)
    requires
        is_newest(rows, v),
    ensures
        removal_plan(kernels_of(rows, running), v) is Err,
{
    let ks = kernels_of(rows, running);
    lemma_kernel_named(ks, v);
    if let Some(k) = kernel_named(ks, v) {
        let i = choose|i: int| 0 <= i < ks.len() && ks[i] == k;
        assert(ks[i] == kernel_for(rows, running, installed_versions(rows)[i]));
    }
}

/// Where only one release is installed, nothing can be removed.
pub proof fn law_single_kernel_stays(rows: Seq<RowView>, running: Seq<char>, v: Seq<char>)
    requires
        installed_versions(rows).len() <= 1,
    ensures
        removal_plan(kernels_of(rows, running), v) is Err,
{
    let ks = kernels_of(rows, running);
    lemma_first_is_newest(rows);
    lemma_kernel_named(ks, v);
    if let Some(k) = kernel_named(ks, v) {
        let i = choose|i: int| 0 <= i < ks.len() && ks[i] == k;
        assert(is_newest(rows, installed_versions(rows)[i]));
    }
}

/// A removal script names one listed, unprotected kernel's packages, each a
/// kernel package whose name the shell does not act on.
pub proof fn law_removal_is_safe(ks: Seq<KernelView>, version: Seq<char>)
    requires
        removal_plan(ks, version) is Ok,
    ensures
        exists|i: int|
            0 <= i < ks.len() && (#[trigger] ks[i]).version == version && !ks[i].protected
                && removal_plan(ks, version) == Ok::<Seq<char>, Seq<char>>(
                apt_script_of("purge"@, ks[i].packages),
            ) && forall|j: int|
                0 <= j < ks[i].packages.len() ==> is_kernel_package(#[trigger] ks[i].packages[j])
                    && shell_inert(ks[i].packages[j]),
{
    lemma_kernel_named(ks, version);
    let k = kernel_named(ks, version)->0;
    let i = choose|i: int| 0 <= i < ks.len() && ks[i] == k;
    lemma_first_suspicious(k.packages);
    reveal_strlit("linux-image-");
    reveal_strlit("linux-modules");
    reveal_strlit("linux-headers-");
    assert forall|j: int| 0 <= j < ks[i].packages.len() implies is_kernel_package(
        #[trigger] ks[i].packages[j],
    ) && shell_inert(ks[i].packages[j]) by {
        let p = k.packages[j];
        assert(is_kernel_package(p));
        assert(p[0] == 'l') by {
            if "linux-image-"@.is_prefix_of(p) {
                assert(p.subrange(0, 12)[0] == p[0]);
            } else if "linux-modules"@.is_prefix_of(p) {
                assert(p.subrange(0, 13)[0] == p[0]);
            } else {
                assert(p.subrange(0, 14)[0] == p[0]);
            }
        }
        law_pkg_name_inert(p);
    }
}

// --- state ------------------------------------------------------------------

/// What the kernel card shows.
pub struct KernelsState {
    pub loading: bool,
    pub loaded: bool,
    /// Newest first.
    pub kernels: Vec<Kernel>,
    pub error: Option<String>,
    pub busy: bool,
    pub log: Vec<String>,
    pub done: bool,
    pub ok: bool,
}

#[verifier::ext_equal]
pub struct KernelsView {
    pub loading: bool,
    pub loaded: bool,
    pub kernels: Seq<KernelView>,
    pub error: Option<Seq<char>>,
    pub busy: bool,
    pub log: Seq<Seq<char>>,
    pub done: bool,
    pub ok: bool,
}

impl View for KernelsState {
    type V = KernelsView;

    open spec fn view(&self) -> KernelsView {
        KernelsView {
            loading: self.loading,
            loaded: self.loaded,
            kernels: views(self.kernels@),
            error: opt(self.error),
            busy: self.busy,
            log: views(self.log@),
            done: self.done,
            ok: self.ok,
        }
    }
}

impl Default for KernelsState {
    fn default() -> (r: Self)
        ensures
            r@ == (KernelsView {
                loading: false,
                loaded: false,
                kernels: Seq::empty(),
                error: None,
                busy: false,
                log: Seq::empty(),
                done: false,
                ok: false,
            }),
    {
        let r = KernelsState {
            loading: false,
            loaded: false,
            kernels: Vec::new(),
            error: None,
            busy: false,
            log: Vec::new(),
            done: false,
            ok: false,
        };
        assert(views(r.kernels@) =~= Seq::empty());
        assert(views(r.log@) =~= Seq::empty());
        r
    }
}

/// The kernel card's worker: what may start, and what each outcome changes.
pub struct Kernels {
    pub state: KernelsState,
}

impl View for Kernels {
    type V = KernelsView;

    open spec fn view(&self) -> KernelsView {
        self.state@
    }
}

impl Kernels {
    pub fn new() -> (r: Self)
        ensures
            r@ == (KernelsView {
                loading: false,
                loaded: false,
                kernels: Seq::empty(),
                error: None,
                busy: false,
                log: Seq::empty(),
                done: false,
                ok: false,
            }),
    {
        Kernels { state: KernelsState::default() }
    }

    pub fn is_busy(&self) -> (r: bool)
        ensures
            r == self@.busy,
    {
        self.state.busy
    }

    pub fn is_loading(&self) -> (r: bool)
        ensures
            r == self@.loading,
    {
        self.state.loading
    }

    /// Whether a listing starts now.
    pub fn load(&mut self) -> (start: bool)
        ensures
            start == !(old(self)@.loading || old(self)@.busy),
            final(self)@ == if start {
                KernelsView { loading: true, error: None, ..old(self)@ }
            } else {
                old(self)@
            },
    {
        if self.is_loading() || self.is_busy() {
            return false;
        }
        self.state.loading = true;
        self.state.error = None;
        true
    }

    /// Takes in a finished listing; a failed one leaves nothing removable.
    pub fn loaded(&mut self, result: Result<Vec<Kernel>, String>)
        ensures
            final(self)@ == (KernelsView {
                loading: false,
                loaded: true,
                kernels: match listing_view(result) {
                    Ok(ks) => ks,
                    Err(_) => Seq::empty(),
                },
                error: match listing_view(result) {
                    Ok(_) => old(self)@.error,
                    Err(e) => Some(e),
                },
                ..old(self)@
            }),
    {
        match result {
            Ok(kernels) => {
                self.state.kernels = kernels;
            },
            Err(e) => {
                self.state.kernels = Vec::new();
                self.state.error = Some(e);
                assert(views(self.state.kernels@) =~= Seq::empty());
            },
        }
        self.state.loading = false;
        self.state.loaded = true;
    }

    /// Whether a removal starts now; the caller then lists afresh and plans.
    pub fn remove(&mut self, version: &str) -> (start: bool)
        ensures
            start == !(old(self)@.busy || old(self)@.loading),
            final(self)@ == if start {
                KernelsView {
                    busy: true,
                    done: false,
                    ok: false,
                    log: seq!["Checking "@ + version@ + " is safe to remove…"@],
                    error: None,
                    ..old(self)@
                }
            } else {
                old(self)@
            },
    {
        broadcast use lemma_views_push;

        if self.is_busy() || self.is_loading() {
            return false;
        }
        self.state.busy = true;
        self.state.done = false;
        self.state.ok = false;
        let mut title = "Checking ".to_owned();
        title.append(version);
        title.append(" is safe to remove…");
        let mut log: Vec<String> = Vec::new();
        log.push(title);
        self.state.log = log;
        self.state.error = None;
        assert(self@.log =~= seq!["Checking "@ + version@ + " is safe to remove…"@]);
        true
    }

    /// Refuses a removal before anything ran.
    pub fn refuse(&mut self, msg: String)
        ensures
            final(self)@ == (KernelsView { busy: false, error: Some(msg@), ..old(self)@ }),
    {
        self.state.busy = false;
        self.state.error = Some(msg);
    }

    /// Adds a line to the transcript.
    pub fn push_log(&mut self, line: String)
        ensures
            final(self)@ == (KernelsView {
                log: newest_lines(old(self)@.log.push(line@)),
                ..old(self)@
            }),
    {
        push_log(&mut self.state.log, line);
    }

    /// Takes in a removal that ran, with a fresh listing. Without success the
    /// message is the last line of the command's error output.
    pub fn removed(&mut self, listing: Result<Vec<Kernel>, String>, ok: bool, err: &str)
        ensures
            final(self)@ == (KernelsView {
                kernels: match listing_view(listing) {
                    Ok(ks) => ks,
                    Err(_) => Seq::empty(),
                },
                busy: false,
                done: true,
                ok,
                error: if ok {
                    old(self)@.error
                } else {
                    Some(failure_of(err@, "The removal didn't finish. See the log above."@))
                },
                ..old(self)@
            }),
    {
        match listing {
            Ok(kernels) => {
                self.state.kernels = kernels;
            },
            Err(_) => {
                self.state.kernels = Vec::new();
                assert(views(self.state.kernels@) =~= Seq::empty());
            },
        }
        self.state.busy = false;
        self.state.done = true;
        self.state.ok = ok;
        if !ok {
            self.state.error = Some(failure(err, "The removal didn't finish. See the log above."));
        }
    }

    /// Puts a finished removal's transcript away.
    pub fn dismiss(&mut self)
        ensures
            final(self)@ == (KernelsView { log: Seq::empty(), done: false, ..old(self)@ }),
    {
        self.state.log.clear();
        self.state.done = false;
        assert(views(self.state.log@) =~= Seq::empty());
    }
}

// --- what is shown ----------------------------------------------------------

/// What is said of a kernel: its packages, their size, and why it stays.
pub open spec fn detail_text(k: KernelView) -> Seq<char> {
    decimal(k.packages.len()) + " package"@ + (if k.packages.len() == 1 {
        ""@
    } else {
        "s"@
    }) + "  ·  "@ + bytes_text(k.size_kb * 1024) + (if k.running {
        "  ·  running"@
    } else {
        ""@
    }) + (if k.newest {
        "  ·  newest"@
    } else {
        ""@
    })
}

impl Kernel {
    /// Whether the size fits in 64 bits as bytes.
    pub fn size_fits(&self) -> (r: bool)
        ensures
            r == (self@.size_kb * 1024 <= u64::MAX),
    {
        self.size_kb <= u64::MAX / 1024
    }

    pub fn detail(&self) -> (r: String)
        requires
            self@.size_kb * 1024 <= u64::MAX,
        ensures
            r@ == detail_text(self@),
    {
        let n = self.packages.len();
        let mut s = show(n as u64);
        s.append(" package");
        s.append(
            if n == 1 {
                ""
            } else {
                "s"
            },
        );
        s.append("  ·  ");
        let size = fmt_bytes(self.size_kb * 1024);
        s.append(size.as_str());
        s.append(
            if self.running {
                "  ·  running"
            } else {
                ""
            },
        );
        s.append(
            if self.newest {
                "  ·  newest"
            } else {
                ""
            },
        );
        s
    }
}

/// Whether the sizes of each kernel of a package listing add up within 64
/// bits.
pub fn listing_fits(out: &str) -> (r: bool)
    ensures
        r == sizes_fit(dpkg_rows(out@)),
{
    let rows = parse_dpkg_rows(out);
    let inst = installed(&rows);
    let all = found(&inst);
    let releases = stable_sort(without_repeats(&all));
    let ghost rs = views(rows@);
    let ghost vs = installed_versions(rs);
    assert(views(releases@) == vs);
    let mut i: usize = 0;
    while i < releases.len()
        invariant
            i <= releases@.len(),
            rs == dpkg_rows(out@),
            vs == installed_versions(rs),
            views(releases@) == vs,
            views(inst@) == installed_of(rs),
            forall|k: int|
                0 <= k < i ==> sum_of(sizes_for(installed_of(rs), #[trigger] vs[k])) <= u64::MAX,
        decreases releases@.len() - i,
    {
        assert(vs[i as int] == releases@[i as int]@);
        assert(vs.contains(vs[i as int]));
        let chars = to_chars(releases[i].version.as_str());
        if checked_sum(&gather(&inst, &chars).1).is_none() {
            return false;
        }
        i += 1;
    }
    assert forall|v: Seq<char>| #[trigger] vs.contains(v) implies sum_of(
        sizes_for(installed_of(rs), v),
    ) <= u64::MAX by {
        let k = choose|k: int| 0 <= k < vs.len() && vs[k] == v;
        assert(vs[k] == v);
    }
    true
}

// --- what the listing must satisfy ------------------------------------------

proof fn lemma_digit_run_ends(s: Seq<char>)
    ensures
        digit_run(s) < s.len() ==> !is_digit(s[digit_run(s) as int]),
    decreases s.len(),
{
    if starts_with_digit(s) {
        lemma_digit_run_ends(s.skip(1));
        lemma_digit_run(s.skip(1));
    }
}

proof fn lemma_digit_run_append(a: Seq<char>, b: Seq<char>)
    requires
        a.len() > 0 && b.len() > 0 ==> !(is_digit(a.last()) && is_digit(b[0])),
        a.len() > 0,
        is_digit(a[0]),
    ensures
        digit_run(a + b) == digit_run(a),
    decreases a.len(),
{
    reveal_with_fuel(digit_run, 2);
    let s = a + b;
    assert(s[0] == a[0]);
    assert(s.skip(1) =~= a.skip(1) + b);
    if a.len() == 1 {
        assert(a.skip(1).len() == 0);
        assert(s.skip(1) =~= b);
        assert(a.last() == a[0]);
    } else if is_digit(a[1]) {
        assert(a.skip(1).last() == a.last());
        lemma_digit_run_append(a.skip(1), b);
    } else {
        assert(s.skip(1)[0] == a[1]);
    }
}

/// The numbers of a release are read from left to right: those of its parts,
/// one behind the other, as long as no number is cut in two.
pub proof fn law_release_numbers(a: Seq<char>, b: Seq<char>)
    requires
        a.len() > 0 && b.len() > 0 ==> !(is_digit(a.last()) && is_digit(b[0])),
    ensures
        kver(a + b) == kver(a) + kver(b),
    decreases a.len(),
{
    let s = a + b;
    if a.len() == 0 {
        assert(s =~= b);
        assert(kver(a) + kver(b) =~= kver(b));
    } else if is_digit(a[0]) {
        let n = digit_run(a) as int;
        lemma_digit_run(a);
        lemma_digit_run_append(a, b);
        assert(s.take(n) =~= a.take(n));
        assert(s.skip(n) =~= a.skip(n) + b);
        if a.skip(n).len() > 0 {
            assert(a.skip(n).last() == a.last());
        }
        law_release_numbers(a.skip(n), b);
        assert(kver(s) =~= kver(a) + kver(b));
    } else {
        assert(s.skip(1) =~= a.skip(1) + b);
        if a.skip(1).len() > 0 {
            assert(a.skip(1).last() == a.last());
        }
        law_release_numbers(a.skip(1), b);
    }
}

/// A run of digits is one number, the largest one where it does not fit; what
/// holds no digit holds no number.
pub proof fn law_release_number(digits: Seq<char>, other: Seq<char>)
    requires
        digits.len() > 0,
        forall|i: int| 0 <= i < digits.len() ==> is_digit(#[trigger] digits[i]),
        forall|i: int| 0 <= i < other.len() ==> !is_digit(#[trigger] other[i]),
    ensures
        kver(digits).len() == 1,
        value_of(digits) <= u64::MAX ==> kver(digits)[0] == value_of(digits),
        value_of(digits) > u64::MAX ==> kver(digits)[0] == u64::MAX,
        kver(other).len() == 0,
    decreases other.len(),
{
    lemma_digit_run(digits);
    lemma_digit_run_ends(digits);
    assert(is_digit(digits[0]));
    let n = digit_run(digits) as int;
    assert(n == digits.len());
    assert(digits.take(n) =~= digits);
    assert(digits.skip(n).len() == 0);
    assert(kver(digits.skip(n)).len() == 0);
    if other.len() > 0 {
        let rest = other.skip(1);
        assert forall|i: int| 0 <= i < rest.len() implies !is_digit(#[trigger] rest[i]) by {
            assert(rest[i] == other[i + 1]);
        }
        law_release_number(digits, rest);
        assert(!is_digit(other[0]));
    }
}

/// Of two releases, the one with the greater number at the first place where
/// they differ is newer, and so is the one that goes on where the other ends.
pub proof fn law_newer_by_first_difference(a: Seq<char>, b: Seq<char>, k: int)
    requires
        0 <= k,
        k <= kver(a).len(),
        k <= kver(b).len(),
        kver(a).take(k) == kver(b).take(k),
    ensures
        k < kver(a).len() && k < kver(b).len() && kver(a)[k] > kver(b)[k] ==> newer(a, b) && !newer(
            b,
            a,
        ),
        k == kver(b).len() && k < kver(a).len() ==> newer(a, b) && !newer(b, a),
        kver(a) == kver(b) ==> newer(a, b) == text_lt(b, a),
{
    law_key_by_first_difference(kver(b), kver(a), k);
    law_key_order(kver(a), kver(b), kver(a));
}

/// In the list of kernels, one whose release has the greater number at the
/// first place where two differ stands ahead of the other, which is then not
/// the newest, and the one at the head is never removed.
pub proof fn law_greater_release_leads(
    rows: Seq<RowView>,
    running: Seq<char>,
    i: int,
    j: int,
    k: int,
)
    requires
        0 <= i < kernels_of(rows, running).len(),
        0 <= j < kernels_of(rows, running).len(),
        ({
            let a = kver(kernels_of(rows, running)[i].version);
            let b = kver(kernels_of(rows, running)[j].version);
            0 <= k < a.len() && k < b.len() && a.take(k) == b.take(k) && a[k] > b[k]
        }),
    ensures
        i < j,
        !kernels_of(rows, running)[j].newest,
        kernels_of(rows, running)[0].newest,
        kernels_of(rows, running)[0].protected,
        removal_plan(kernels_of(rows, running), kernels_of(rows, running)[0].version) is Err,
{
    let ks = kernels_of(rows, running);
    let a = ks[i].version;
    let b = ks[j].version;
    law_kernels_listed(rows, running);
    law_newer_by_first_difference(a, b, k);
    assert(ks[i].newest == (i == 0));
    assert(ks[j].newest == (j == 0));
    assert(ks[0].newest && ks[0].protected);
    if i > j {
        assert(newer(ks[j].version, ks[i].version));
    }
    law_removal_decided(ks, ks[0].version, 0);
}

/// A package of a kernel prefix is a meta package exactly when no version
/// follows the prefix; any other package is none.
pub proof fn law_meta(rest: Seq<char>, pkg: Seq<char>)
    ensures
        names_meta("linux-image-"@ + rest) <==> !(rest.len() > 0 && '0' <= rest[0] && rest[0] <= '9'),
        names_meta("linux-modules-"@ + rest) <==> !(rest.len() > 0 && '0' <= rest[0] && rest[0]
            <= '9'),
        names_meta("linux-headers-"@ + rest) <==> !(rest.len() > 0 && '0' <= rest[0] && rest[0]
            <= '9'),
        !"linux-image-"@.is_prefix_of(pkg) && !"linux-modules-"@.is_prefix_of(pkg)
            && !"linux-headers-"@.is_prefix_of(pkg) ==> !names_meta(pkg),
{
    reveal_strlit("linux-image-");
    reveal_strlit("linux-modules-");
    reveal_strlit("linux-headers-");
    law_affixes("linux-image-"@, rest, rest);
    law_affixes("linux-modules-"@, rest, rest);
    law_affixes("linux-headers-"@, rest, rest);
    let m = "linux-modules-"@ + rest;
    let h = "linux-headers-"@ + rest;
    assert(m[6] == 'm' && h[6] == 'h');
    if "linux-image-"@.is_prefix_of(m) {
        assert(m.subrange(0, 12)[6] == m[6]);
    }
    if "linux-image-"@.is_prefix_of(h) {
        assert(h.subrange(0, 12)[6] == h[6]);
    }
    if "linux-modules-"@.is_prefix_of(h) {
        assert(h.subrange(0, 14)[6] == h[6]);
    }
}

/// A release is installed exactly when the image package of it is, in full.
pub proof fn law_release_installed(rows: Seq<RowView>, v: Seq<char>)
    ensures
        versions_found(rows).contains(v) <==> 0 < v.len() && v.len() < 100 && '0' <= v[0]
            && v[0] <= '9' && (forall|k: int|
            0 <= k < v.len() ==> ('0' <= #[trigger] v[k] && v[k] <= '9') || ('a' <= v[k] && v[k]
                <= 'z') || ('A' <= v[k] && v[k] <= 'Z') || v[k] == '.' || v[k] == '-') && exists|i: int|
            0 <= i < rows.len() && (#[trigger] rows[i]).0 == "linux-image-"@ + v && trimmed(
                rows[i].1,
            ) == "ii"@,
{
    let inst = installed_of(rows);
    let f = |row: RowView|
        if trimmed(row.1) == "ii"@ {
            Some((row.0, row.2))
        } else {
            None
        };
    let g = |p: (Seq<char>, u64)| found_version(p.0);
    assert(inst == kept(rows, f));
    assert(versions_found(rows) == kept(inst, g));
    law_kept_items(inst, g, v);
    let p = "linux-image-"@ + v;
    let fit = 0 < v.len() && v.len() < 100 && '0' <= v[0]
            && v[0] <= '9' && (forall|k: int|
            0 <= k < v.len() ==> ('0' <= #[trigger] v[k] && v[k] <= '9') || ('a' <= v[k] && v[k]
                <= 'z') || ('A' <= v[k] && v[k] <= 'Z') || v[k] == '.' || v[k] == '-');
    law_meta(v, p);
    law_affixes("linux-image-"@, v, v);
    reveal_strlit(".-");
    assert(".-"@ =~= seq!['.', '-']);
    law_plain(v, ".-"@, 100);
    assert forall|c: char| ".-"@.contains(c) <==> c == '.' || c == '-' by {
        assert(".-"@[0] == '.' && ".-"@[1] == '-');
    }
    assert((found_version(p) == Some(v)) <==> fit);
    if versions_found(rows).contains(v) {
        let k = choose|k: int| 0 <= k < inst.len() && g(#[trigger] inst[k]) == Some(v);
        let q = inst[k];
        law_affixes("linux-image-"@, v, q.0);
        assert(q.0 == p);
        law_kept_items(rows, f, q);
        assert(inst.contains(q));
        let i = choose|i: int| 0 <= i < rows.len() && f(#[trigger] rows[i]) == Some(q);
        assert(rows[i].0 == p);
    }
    if fit && exists|i: int|
        0 <= i < rows.len() && (#[trigger] rows[i]).0 == p && trimmed(rows[i].1) == "ii"@ {
        let i = choose|i: int|
            0 <= i < rows.len() && (#[trigger] rows[i]).0 == p && trimmed(rows[i].1) == "ii"@;
        let q = (rows[i].0, rows[i].2);
        law_kept_items(rows, f, q);
        assert(f(rows[i]) == Some(q));
        assert(inst.contains(q));
        let k = choose|k: int| 0 <= k < inst.len() && inst[k] == q;
        assert(g(inst[k]) == Some(v));
    }
}

/// A fully installed package goes with a release exactly under these names,
/// and then adds its size; no other row changes what goes with the release.
pub proof fn law_companions(rows: Seq<RowView>, row: RowView, running: Seq<char>, v: Seq<char>)
    ensures
        ({
            let before = kernel_for(rows, running, v);
            let after = kernel_for(rows.push(row), running, v);
            let goes = trimmed(row.1) == "ii"@ && (row.0 == "linux-image-"@ + v || row.0
                == "linux-modules-"@ + v || row.0 == "linux-modules-extra-"@ + v || row.0
                == "linux-headers-"@ + v || row.0 == "linux-headers-"@ + base_of(v));
            &&& goes ==> after.packages == before.packages.push(row.0) && after.size_kb
                == before.size_kb + row.2
            &&& !goes ==> after.packages == before.packages && after.size_kb == before.size_kb
            &&& after.version == v
            &&& after.running == (v == running)
        }),
        kernel_for(Seq::empty(), running, v).packages.len() == 0,
        kernel_for(Seq::empty(), running, v).size_kb == 0,
{
    let f = |row: RowView|
        if trimmed(row.1) == "ii"@ {
            Some((row.0, row.2))
        } else {
            None
        };
    let g = |p: (Seq<char>, u64)|
        if companion(v, p.0) {
            Some(p.0)
        } else {
            None
        };
    let h = |p: (Seq<char>, u64)|
        if companion(v, p.0) {
            Some(p.1)
        } else {
            None
        };
    assert(rows.push(row) =~= rows + seq![row]);
    law_kept_in_order(rows, seq![row], row, f);
    let inst = installed_of(rows);
    assert(inst == kept(rows, f));
    let more = installed_of(rows.push(row));
    assert(more == inst + kept(seq![row], f));
    let p = (row.0, row.2);
    law_kept_in_order(inst, seq![p], p, g);
    law_kept_in_order(inst, seq![p], p, h);
    if trimmed(row.1) == "ii"@ {
        assert(more == inst + seq![p]);
        if companion(v, row.0) {
            assert(kept(inst, g) + seq![row.0] =~= kept(inst, g).push(row.0));
            law_sum(kept(inst, h), seq![row.2], row.2);
        } else {
            assert(kept(inst, g) + Seq::<Seq<char>>::empty() =~= kept(inst, g));
            assert(kept(inst, h) + Seq::<u64>::empty() =~= kept(inst, h));
        }
    } else {
        assert(inst + Seq::<(Seq<char>, u64)>::empty() =~= inst);
    }
}

/// Flavours at the end of a release come off one by one, up to a segment that
/// begins with a digit.
pub proof fn law_base_release(front: Seq<char>, seg: Seq<char>)
    requires
        !seg.contains('-'),
    ensures
        seg.len() > 0 && is_digit(seg[0]) ==> base_of(front + seq!['-'] + seg) == front + seq!['-']
            + seg,
        !(seg.len() > 0 && is_digit(seg[0])) ==> base_of(front + seq!['-'] + seg) == base_of(front),
        base_of(seg) == seg,
{
    let v = front + seq!['-'] + seg;
    law_last_of(front, seg, '-');
    assert(v.skip(front.len() as int + 1) =~= seg);
    assert(v.take(front.len() as int) =~= front);
}

/// A listing line gives its package, its status and its size, without the
/// space around them; a size that is no number counts as zero.
pub proof fn law_dpkg_line(pkg: Seq<char>, status: Seq<char>, size: Seq<char>)
    requires
        !pkg.contains('\t'),
        !status.contains('\t'),
        !size.contains('\t'),
    ensures
        ({
            let line = pkg + seq!['\t'] + (status + seq!['\t'] + size);
            &&& trimmed(pkg).len() == 0 ==> dpkg_row(line) is None
            &&& trimmed(pkg).len() > 0 ==> (dpkg_row(line) matches Some(r) && r.0 == trimmed(pkg)
                && r.1 == trimmed(status) && (match bounded_of(trimmed(size), u64::MAX as nat) {
                Some(n) => r.2 == n,
                None => r.2 == 0,
            }))
        }),
        trimmed(pkg).len() > 0 ==> dpkg_row(pkg + seq!['\t'] + status) == Some(
            (trimmed(pkg), trimmed(status), 0u64),
        ),
        dpkg_row(pkg) is None,
{
    reveal_strlit("\t");
    assert("\t"@ =~= seq!['\t']);
    let rest = status + seq!['\t'] + size;
    law_split(pkg, rest, '\t', 1);
    law_split(pkg, status, '\t', 1);
    law_split(status, size, '\t', 1);
    law_split(size, size, '\t', 1);
}

/// What a removal comes to, by the kernel that the list has for the release:
/// none, a protected one, one with a package of another kind, or one that is
/// purged with all its packages.
pub proof fn law_removal_decided(ks: Seq<KernelView>, version: Seq<char>, i: int)
    ensures
        (forall|k: int| 0 <= k < ks.len() ==> (#[trigger] ks[k]).version != version)
            ==> removal_plan(ks, version) == Err::<Seq<char>, Seq<char>>(
            version + " is not installed."@,
        ),
        0 <= i < ks.len() && ks[i].version == version && (forall|k: int|
            0 <= k < i ==> (#[trigger] ks[k]).version != version) ==> {
            let k = ks[i];
            &&& k.protected || k.packages.len() == 0 ==> removal_plan(ks, version) == Err::<
                Seq<char>,
                Seq<char>,
            >(version + " is protected (running or newest) and can't be removed."@)
            &&& !k.protected && k.packages.len() > 0 && (forall|p: int|
                0 <= p < k.packages.len() ==> is_kernel_package(#[trigger] k.packages[p]))
                ==> removal_plan(ks, version) == Ok::<Seq<char>, Seq<char>>(
                apt_script_of("purge"@, k.packages),
            )
            &&& (exists|p: int|
                0 <= p < k.packages.len() && !is_kernel_package(#[trigger] k.packages[p]))
                ==> removal_plan(ks, version) is Err
        },
{
    lemma_named_at(ks, version, i);
    if 0 <= i < ks.len() {
        lemma_suspicious(ks[i].packages);
    }
}

proof fn lemma_named_at(ks: Seq<KernelView>, version: Seq<char>, i: int)
    ensures
        (forall|k: int| 0 <= k < ks.len() ==> (#[trigger] ks[k]).version != version)
            ==> kernel_named(ks, version) is None,
        0 <= i < ks.len() && ks[i].version == version && (forall|k: int|
            0 <= k < i ==> (#[trigger] ks[k]).version != version) ==> kernel_named(ks, version)
            == Some(ks[i]),
    decreases ks.len(),
{
    if ks.len() > 0 {
        let rest = ks.skip(1);
        lemma_named_at(rest, version, i - 1);
        assert(forall|k: int| 0 <= k < rest.len() ==> #[trigger] rest[k] == ks[k + 1]);
        if ks[0].version != version {
            if forall|k: int| 0 <= k < ks.len() ==> (#[trigger] ks[k]).version != version {
                assert forall|k: int| 0 <= k < rest.len() implies (#[trigger] rest[k]).version
                    != version by {
                    assert(rest[k] == ks[k + 1]);
                }
            }
        }
        if 0 < i < ks.len() && (forall|k: int| 0 <= k < i ==> (#[trigger] ks[k]).version != version) {
            assert(ks[0].version != version);
            assert forall|k: int| 0 <= k < i - 1 implies (#[trigger] rest[k]).version != version by {
                assert(rest[k] == ks[k + 1]);
            }
        }
    }
}

proof fn lemma_suspicious(pkgs: Seq<Seq<char>>)
    ensures
        (forall|p: int| 0 <= p < pkgs.len() ==> is_kernel_package(#[trigger] pkgs[p]))
            ==> first_suspicious(pkgs) is None,
        (exists|p: int| 0 <= p < pkgs.len() && !is_kernel_package(#[trigger] pkgs[p]))
            ==> first_suspicious(pkgs) is Some,
{
    lemma_first_suspicious(pkgs);
    lemma_suspicious_found(pkgs);
}

proof fn lemma_suspicious_found(pkgs: Seq<Seq<char>>)
    ensures
        first_suspicious(pkgs) matches Some(p) ==> exists|i: int|
            0 <= i < pkgs.len() && #[trigger] pkgs[i] == p && !is_kernel_package(p),
    decreases pkgs.len(),
{
    if pkgs.len() > 0 {
        lemma_suspicious_found(pkgs.skip(1));
        if is_kernel_package(pkgs[0]) {
            if let Some(p) = first_suspicious(pkgs.skip(1)) {
                let i = choose|i: int|
                    0 <= i < pkgs.skip(1).len() && #[trigger] pkgs.skip(1)[i] == p
                        && !is_kernel_package(p);
                assert(pkgs[i + 1] == p);
            }
        } else {
            assert(pkgs[0] == pkgs[0]);
        }
    }
}

/// A removal may name image, module and header packages with valid names, and
/// nothing else.
pub proof fn law_kernel_package(p: Seq<char>, tail: Seq<char>)
    ensures
        is_kernel_package(p) ==> is_pkg_name(p) && (exists|t: Seq<char>|
            p == #[trigger] ("linux-image-"@ + t) || p == "linux-modules"@ + t || p
                == "linux-headers-"@ + t),
        is_kernel_package("linux-image-"@ + tail) <==> is_pkg_name("linux-image-"@ + tail),
        is_kernel_package("linux-modules"@ + tail) <==> is_pkg_name("linux-modules"@ + tail),
        is_kernel_package("linux-headers-"@ + tail) <==> is_pkg_name("linux-headers-"@ + tail),
{
    law_affixes("linux-image-"@, tail, p);
    law_affixes("linux-modules"@, tail, p);
    law_affixes("linux-headers-"@, tail, p);
    if is_kernel_package(p) {
        let t = if "linux-image-"@.is_prefix_of(p) {
            p.skip("linux-image-"@.len() as int)
        } else if "linux-modules"@.is_prefix_of(p) {
            p.skip("linux-modules"@.len() as int)
        } else {
            p.skip("linux-headers-"@.len() as int)
        };
        let w = "linux-image-"@ + t;
        assert(p == w || p == "linux-modules"@ + t || p == "linux-headers-"@ + t);
    }
}

/// A listing succeeds only where the running release is known, the packages
/// could be listed and a kernel is among them; then it is all of them.
pub proof fn law_listing(
    osrelease: Result<Seq<char>, Seq<char>>,
    dpkg: Result<Seq<char>, Seq<char>>,
)
    ensures
        listing(osrelease, dpkg) matches Ok(ks) ==> ks.len() > 0 && osrelease is Ok && dpkg is Ok
            && trimmed(osrelease->Ok_0).len() > 0 && ks == kernels_of(
            dpkg_rows(dpkg->Ok_0),
            trimmed(osrelease->Ok_0),
        ),
        osrelease is Ok && dpkg is Ok && trimmed(osrelease->Ok_0).len() > 0 && kernels_of(
            dpkg_rows(dpkg->Ok_0),
            trimmed(osrelease->Ok_0),
        ).len() > 0 ==> listing(osrelease, dpkg) is Ok,
        osrelease matches Err(e) ==> listing(osrelease, dpkg) == Err::<Seq<KernelView>, Seq<char>>(
            "Couldn't read the running kernel version: "@ + e,
        ),
{
}

/// The packages, their size, and why a kernel stays are said in this order.
pub proof fn law_detail(k: KernelView)
    ensures
        ({
            let amount = bytes_text(k.size_kb * 1024);
            let one = "1 package  ·  "@ + amount;
            let many = decimal(k.packages.len()) + " packages  ·  "@ + amount;
            let said = if k.packages.len() == 1 {
                one
            } else {
                many
            };
            &&& !k.running && !k.newest ==> detail_text(k) == said
            &&& k.running && !k.newest ==> detail_text(k) == said + "  ·  running"@
            &&& !k.running && k.newest ==> detail_text(k) == said + "  ·  newest"@
            &&& k.running && k.newest ==> detail_text(k) == said + "  ·  running"@ + "  ·  newest"@
        }),
{
    reveal_strlit("");
    reveal_strlit("s");
    reveal_strlit(" package");
    reveal_strlit("  ·  ");
    reveal_strlit("1 package  ·  ");
    reveal_strlit(" packages  ·  ");
    let amount = bytes_text(k.size_kb * 1024);
    assert(""@ =~= Seq::<char>::empty());
    assert(" packages  ·  "@ =~= " package"@ + "s"@ + "  ·  "@);
    assert("1 package  ·  "@ =~= seq!['1'] + " package"@ + "  ·  "@);
    law_decimal(1);
    assert(decimal(1) =~= seq!['1']);
    let n = decimal(k.packages.len());
    if k.packages.len() == 1 {
        assert(n + " package"@ + ""@ + "  ·  "@ + amount =~= "1 package  ·  "@ + amount);
    } else {
        assert(n + " package"@ + "s"@ + "  ·  "@ + amount =~= n + " packages  ·  "@ + amount);
    }
    let head = n + " package"@ + (if k.packages.len() == 1 {
        ""@
    } else {
        "s"@
    }) + "  ·  "@ + amount;
    assert(head + ""@ =~= head);
    assert(head + ""@ + ""@ =~= head);
    assert(head + "  ·  running"@ + ""@ =~= head + "  ·  running"@);
}

/// What is said of a kernel and the tab is said of the fields.
pub proof fn law_fields(release: Release, kernel: Kernel, state: KernelsState, tab: Kernels)
    ensures
        release@ == release.version@,
        kernel@.version == kernel.version@,
        kernel@.packages == views(kernel.packages@),
        kernel@.size_kb == kernel.size_kb as nat,
        kernel@.running == kernel.running,
        kernel@.newest == kernel.newest,
        kernel@.protected == kernel.protected,
        state@.loading == state.loading,
        state@.loaded == state.loaded,
        state@.kernels == views(state.kernels@),
        state@.error == opt(state.error),
        state@.busy == state.busy,
        state@.log == views(state.log@),
        state@.done == state.done,
        state@.ok == state.ok,
        tab@ == tab.state@,
{
}

/// A listing stands for its kernels, a failure for its text.
pub proof fn law_listing_texts(r: Result<Vec<Kernel>, String>)
    ensures
        r matches Ok(ks) ==> listing_view(r) == Ok::<Seq<KernelView>, Seq<char>>(views(ks@)),
        r matches Err(e) ==> listing_view(r) == Err::<Seq<KernelView>, Seq<char>>(e@),
{
}

/// Sizes fit where no installed release has packages of more than 64 bits.
pub proof fn law_sizes_fit(rows: Seq<RowView>, v: Seq<char>)
    ensures
        sizes_fit(rows) && installed_versions(rows).contains(v) ==> sum_of(
            sizes_for(installed_of(rows), v),
        ) <= 0xffff_ffff_ffff_ffff,
        !sizes_fit(rows) ==> exists|u: Seq<char>| #[trigger]
            installed_versions(rows).contains(u) && sum_of(sizes_for(installed_of(rows), u))
                > 0xffff_ffff_ffff_ffff,
{
}

} // verus!
