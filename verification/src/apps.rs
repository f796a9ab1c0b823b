//! Installed packages, repository search, and package installs and removals.

use vstd::prelude::*;
use vstd::string::*;

use crate::log::{failure, failure_of, newest_lines, push_log};
use crate::number::{bounded_of, checked_sum, decimal, law_sum, parse_u64, show, sum_of};
use crate::order::{
    first_of, in_order, law_ranked_sort, law_sort_same_items, law_text_order, order_of, sorted_by,
    stable_sort, string_less, text_lt, Ranked,
};
use crate::text::{
    begins_with_any, byte_count, byte_len, contains, field, field_of, find_in, is_text, is_plain,
    join, joined, law_find, law_joined, law_plain, law_rows, law_split, law_split_at_most_joined,
    lemma_plain_is_inert, lemma_prefix_chars, lemma_views_push, listed, lowercase, occurs, opt, plain,
    prefix_listed, quote, quoted, rows, rows_of, same_text, shell_inert, split, split_at_most,
    split_by, split_once, split_once_at, splitn, starts_with, to_chars, to_text, trim, trimmed,
    views, LineReader,
};

use crate::theme::{bytes_text, fmt_bytes};
use crate::view::{indices, matches_lower, places, text_matches};

verus! {

/// A package name: ASCII letters, digits and `.+-:~`, fewer than 200 of them.
pub open spec fn is_pkg_name(p: Seq<char>) -> bool {
    is_plain(p, ".+-:~"@, 200)
}

pub fn valid_pkg(p: &str) -> (r: bool)
    ensures
        r == is_pkg_name(p@),
{
    plain(&to_chars(p), ".+-:~", 200)
}

/// A valid package name that does not begin with a `~` carries nothing that
/// the shell would act on.
pub proof fn law_pkg_name_inert(p: Seq<char>)
    requires
        is_pkg_name(p),
        p[0] != '~',
    ensures
        shell_inert(p),
{
    reveal_strlit(".+-:~");
    reveal_strlit(" |&;<>()$`\\\"'*?[]{}#!=%");
    lemma_plain_is_inert(p, ".+-:~"@, 200);
}

/// The script that runs `apt-get` with one verb over some packages, without
/// prompts and keeping existing configuration files.
pub open spec fn apt_script_of(verb: Seq<char>, pkgs: Seq<Seq<char>>) -> Seq<char> {
    "DEBIAN_FRONTEND=noninteractive apt-get -y -o Dpkg::Options::=--force-confdef -o Dpkg::Options::=--force-confold "@
        + verb + " "@ + joined(pkgs, " "@) + " 2>&1"@
}

pub fn apt_script(verb: &str, pkgs: &[String]) -> (r: String)
    ensures
        r@ == apt_script_of(verb@, views(pkgs@)),
{
    let mut s = String::new();
    s.append(
        "DEBIAN_FRONTEND=noninteractive apt-get -y -o Dpkg::Options::=--force-confdef -o Dpkg::Options::=--force-confold ",
    );
    s.append(verb);
    s.append(" ");
    let names = join(pkgs, " ");
    s.append(names.as_str());
    s.append(" 2>&1");
    assert(s@ =~= apt_script_of(verb@, views(pkgs@)));
    s
}

// --- packages ---------------------------------------------------------------

/// A package, installed or offered.
pub struct Pkg {
    pub name: String,
    /// Installed size in KiB, zero when unknown.
    pub size_kb: u64,
    pub summary: String,
    /// Critical to the system: shown, never removed.
    pub protected: bool,
}

#[verifier::ext_equal]
pub struct PkgView {
    pub name: Seq<char>,
    pub size_kb: u64,
    pub summary: Seq<char>,
    pub protected: bool,
}

impl View for Pkg {
    type V = PkgView;

    open spec fn view(&self) -> PkgView {
        PkgView {
            name: self.name@,
            size_kb: self.size_kb,
            summary: self.summary@,
            protected: self.protected,
        }
    }
}

/// Packages that are critical under exactly this name.
pub open spec fn critical_names() -> Seq<Seq<char>> {
    seq![
        "libc-bin"@,
        "udev"@,
        "init"@,
        "init-system-helpers"@,
        "sudo"@,
        "pkexec"@,
        "gdm3"@,
        "lightdm"@,
        "sddm"@,
        "gnome-shell"@,
        "gnome-session"@,
        "mutter"@,
        "ubuntu-session"@,
        "ubuntu-desktop"@,
        "ubuntu-desktop-minimal"@,
        "network-manager"@,
        "netplan.io"@,
        "efibootmgr"@,
        "intel-microcode"@,
        "amd64-microcode"@,
    ]
}

/// Prefixes of the names of critical package families.
pub open spec fn critical_families() -> Seq<Seq<char>> {
    seq![
        "linux-image"@,
        "linux-headers"@,
        "linux-modules"@,
        "linux-generic"@,
        "linux-firmware"@,
        "linux-oem"@,
        "linux-lowlatency"@,
        "grub"@,
        "shim"@,
        "libc6"@,
        "libgcc"@,
        "libstdc++"@,
        "systemd"@,
        "libpam"@,
        "libapt"@,
        "apt"@,
        "dpkg"@,
        "xserver-xorg"@,
        "polkit"@,
        "policykit"@,
    ]
}

/// A package whose removal would break boot, hardware, login or the means to
/// repair the system, however its packagers rate it.
pub open spec fn critical(name: Seq<char>) -> bool {
    critical_names().contains(name) || begins_with_any(name, critical_families())
}

pub fn is_critical(name: &str) -> (r: bool)
    ensures
        r == critical(name@),
{
    let exact = vec![
        "libc-bin",
        "udev",
        "init",
        "init-system-helpers",
        "sudo",
        "pkexec",
        "gdm3",
        "lightdm",
        "sddm",
        "gnome-shell",
        "gnome-session",
        "mutter",
        "ubuntu-session",
        "ubuntu-desktop",
        "ubuntu-desktop-minimal",
        "network-manager",
        "netplan.io",
        "efibootmgr",
        "intel-microcode",
        "amd64-microcode",
    ];
    let prefixes = vec![
        "linux-image",
        "linux-headers",
        "linux-modules",
        "linux-generic",
        "linux-firmware",
        "linux-oem",
        "linux-lowlatency",
        "grub",
        "shim",
        "libc6",
        "libgcc",
        "libstdc++",
        "systemd",
        "libpam",
        "libapt",
        "apt",
        "dpkg",
        "xserver-xorg",
        "polkit",
        "policykit",
    ];
    assert(views(exact@) =~= critical_names());
    assert(views(prefixes@) =~= critical_families());
    let c = to_chars(name);
    listed(&c, &exact) || prefix_listed(&c, &prefixes)
}

/// Whether the package database flags a package as one to keep.
pub open spec fn flagged(essential: Seq<char>, priority: Seq<char>) -> bool {
    trimmed(essential) == "yes"@ || trimmed(priority) == "required"@
}

/// What the package database's answer, tab-separated essential flag and
/// priority, says of a package; no answer counts as a flag.
pub open spec fn answer_flags(answer: Option<Seq<char>>) -> bool {
    match answer {
        None => true,
        Some(text) => {
            let f = split_by(text, "\t"@);
            flagged(field_of(f, 0), field_of(f, 1))
        },
    }
}

fn flags(answer: &Option<String>) -> (r: bool)
    ensures
        r == answer_flags(opt(*answer)),
{
    match answer {
        None => true,
        Some(text) => {
            proof {
                reveal_strlit("\t");
            }
            let c = to_chars(text.as_str());
            let f = split(&c, "\t");
            is_text(trim(field(&f, 0)), "yes") || is_text(trim(field(&f, 1)), "required")
        },
    }
}

/// Whether a package must stay, given the database's answer about it.
pub fn pkg_protected(name: &str, answer: &Option<String>) -> (r: bool)
    ensures
        r == (critical(name@) || answer_flags(opt(*answer))),
{
    is_critical(name) || flags(answer)
}

// --- the installed list -----------------------------------------------------

/// The package that a line of the installed listing stands for: six
/// tab-separated fields, of which the status must begin with `ii`.
pub open spec fn installed_row(line: Seq<char>) -> Option<PkgView> {
    let f = split_at_most(line, "\t"@, 6);
    let name = field_of(f, 1);
    if !"ii"@.is_prefix_of(field_of(f, 0)) || name.len() == 0 {
        None
    } else {
        Some(
            PkgView {
                name,
                size_kb: match bounded_of(trimmed(field_of(f, 2)), u64::MAX as nat) {
                    Some(v) => v as u64,
                    None => 0,
                },
                summary: field_of(f, 5),
                protected: flagged(field_of(f, 3), field_of(f, 4)) || critical(name),
            },
        )
    }
}

/// Reads a line of the installed listing.
pub struct InstalledLine;

impl LineReader for InstalledLine {
    type Row = Pkg;

    open spec fn row_of(line: Seq<char>) -> Option<PkgView> {
        installed_row(line)
    }

    fn read(line: &[char]) -> (r: Option<Pkg>) {
        let f = splitn(line, 6, "\t");
        let name = field(&f, 1);
        if !starts_with(field(&f, 0), "ii") || name.len() == 0 {
            return None;
        }
        let size_kb: u64 = match parse_u64(trim(field(&f, 2))) {
            Some(v) => v,
            None => 0,
        };
        let name = to_text(name);
        let protected = is_text(trim(field(&f, 3)), "yes") || is_text(trim(field(&f, 4)), "required")
            || is_critical(name.as_str());
        let p = Pkg { name, size_kb, summary: to_text(field(&f, 5)), protected };
        assert(p@ =~= installed_row(line@)->0);
        Some(p)
    }
}

/// Bigger packages first, those of one size by name.
pub open spec fn bigger_first(a: PkgView, b: PkgView) -> bool {
    a.size_kb > b.size_kb || (a.size_kb == b.size_kb && text_lt(a.name, b.name))
}

impl Ranked for Pkg {
    open spec fn precedes(a: PkgView, b: PkgView) -> bool {
        bigger_first(a, b)
    }

    fn before(&self, other: &Self) -> (r: bool) {
        self.size_kb > other.size_kb || (self.size_kb == other.size_kb && string_less(
            self.name.as_str(),
            other.name.as_str(),
        ))
    }

    proof fn law_precedes(a: PkgView, b: PkgView, c: PkgView) {
        law_text_order(a.name, b.name, c.name);
        law_text_order(b.name, a.name, c.name);
    }
}

/// The installed packages, biggest first.
pub open spec fn installed_of(out: Seq<char>) -> Seq<PkgView> {
    sorted_by(rows_of::<InstalledLine>(out), order_of::<Pkg>())
}

/// The sizes of some packages.
pub open spec fn sizes(pkgs: Seq<PkgView>) -> Seq<u64> {
    pkgs.map_values(|p: PkgView| p.size_kb)
}

/// What the listed packages take together.
pub open spec fn total_size(out: Seq<char>) -> nat {
    sum_of(sizes(rows_of::<InstalledLine>(out)))
}

fn sizes_listed(pkgs: &[Pkg]) -> (r: Vec<u64>)
    ensures
        r@ == sizes(views(pkgs@)),
{
    let ghost all = sizes(views(pkgs@));
    let mut r: Vec<u64> = Vec::new();
    let mut i: usize = 0;
    while i < pkgs.len()
        invariant
            i <= pkgs@.len(),
            all == sizes(views(pkgs@)),
            r@ == all.take(i as int),
        decreases pkgs@.len() - i,
    {
        r.push(pkgs[i].size_kb);
        i += 1;
        assert(r@ =~= all.take(i as int));
    }
    assert(all.take(i as int) =~= all);
    r
}

/// Whether the listed sizes add up within 64 bits.
pub fn total_fits(out: &str) -> (r: bool)
    ensures
        r == (total_size(out@) <= u64::MAX),
{
    let pkgs = rows::<InstalledLine>(out);
    checked_sum(&sizes_listed(&pkgs)).is_some()
}

/// Reads the installed listing: the packages, biggest first, and what they
/// take together in KiB.
pub fn list_installed(out: &str) -> (r: (Vec<Pkg>, u64))
    requires
        total_size(out@) <= u64::MAX,
    ensures
        views(r.0@) == installed_of(out@),
        r.1 == total_size(out@),
{
    let pkgs = rows::<InstalledLine>(out);
    let total: u64 = match checked_sum(&sizes_listed(&pkgs)) {
        Some(t) => t,
        None => 0,
    };
    (stable_sort(pkgs), total)
}

/// The installed list holds what was read, in the order of falling size.
pub proof fn law_installed_by_size(out: Seq<char>)
    ensures
        installed_of(out).to_multiset() == rows_of::<InstalledLine>(out).to_multiset(),
        in_order(installed_of(out), order_of::<Pkg>()),
{
    law_ranked_sort::<Pkg>(rows_of::<InstalledLine>(out));
}

// --- repository search ------------------------------------------------------

/// How many search results are kept.
pub const SEARCH_CAP: usize = 300;

/// The package that a line of search output stands for: name and summary
/// around the first ` - `.
pub open spec fn search_row(line: Seq<char>) -> Option<PkgView> {
    match split_once_at(line, " - "@) {
        Some((name, summary)) => Some(
            PkgView {
                name: trimmed(name),
                size_kb: 0,
                summary: trimmed(summary),
                protected: false,
            },
        ),
        None => None,
    }
}

/// Reads a line of search output.
pub struct SearchLine;

impl LineReader for SearchLine {
    type Row = Pkg;

    open spec fn row_of(line: Seq<char>) -> Option<PkgView> {
        search_row(line)
    }

    fn read(line: &[char]) -> (r: Option<Pkg>) {
        match split_once(line, " - ") {
            Some((name, summary)) => {
                let p = Pkg {
                    name: to_text(trim(name)),
                    size_kb: 0,
                    summary: to_text(trim(summary)),
                    protected: false,
                };
                assert(p@ =~= search_row(line@)->0);
                Some(p)
            },
            None => None,
        }
    }
}

/// How well a lowercase name matches a query: 0 the same, 1 as a prefix, 2
/// within, 3 not at all.
pub open spec fn rank_of(name: Seq<char>, q: Seq<char>) -> u8 {
    if name == q {
        0
    } else if q.is_prefix_of(name) {
        1
    } else if occurs(name, q) {
        2
    } else {
        3
    }
}

/// How well a name already in lowercase matches.
pub fn rank_lower(name: &str, q: &str) -> (r: u8)
    ensures
        r == rank_of(name@, q@),
{
    let n = to_chars(name);
    if is_text(&n, q) {
        0
    } else if starts_with(&n, q) {
        1
    } else if contains(&n, q) {
        2
    } else {
        3
    }
}

/// How well a name matches a lowercase query; lower is better.
pub fn rank(name: &str, q: &str) -> (r: u8)
    ensures
        r == rank_of(lowercase(name@), q@),
{
    let n = name.to_lowercase();
    rank_lower(n.as_str(), q)
}

/// A search result with what it is ranked by.
pub struct Hit {
    pub rank: u8,
    /// The bytes of the name.
    pub bytes: u128,
    pub pkg: Pkg,
}

#[verifier::ext_equal]
pub struct HitView {
    pub rank: u8,
    pub bytes: nat,
    pub pkg: PkgView,
}

impl View for Hit {
    type V = HitView;

    open spec fn view(&self) -> HitView {
        HitView { rank: self.rank, bytes: self.bytes as nat, pkg: self.pkg@ }
    }
}

/// Better matches first, then shorter names, then by name.
pub open spec fn better(a: HitView, b: HitView) -> bool {
    a.rank < b.rank || (a.rank == b.rank && (a.bytes < b.bytes || (a.bytes == b.bytes && text_lt(
        a.pkg.name,
        b.pkg.name,
    ))))
}

impl Ranked for Hit {
    open spec fn precedes(a: HitView, b: HitView) -> bool {
        better(a, b)
    }

    fn before(&self, other: &Self) -> (r: bool) {
        self.rank < other.rank || (self.rank == other.rank && (self.bytes < other.bytes || (
        self.bytes == other.bytes && string_less(self.pkg.name.as_str(), other.pkg.name.as_str()))))
    }

    proof fn law_precedes(a: HitView, b: HitView, c: HitView) {
        law_text_order(a.pkg.name, b.pkg.name, c.pkg.name);
        law_text_order(b.pkg.name, a.pkg.name, c.pkg.name);
    }
}

/// A result ranked against a lowercase query.
pub open spec fn hit(p: PkgView, q: Seq<char>) -> HitView {
    HitView { rank: rank_of(lowercase(p.name), q), bytes: byte_count(p.name), pkg: p }
}

/// The first results, at most the cap, each ranked against the query.
pub open spec fn hits_of(q: Seq<char>, out: Seq<char>) -> Seq<HitView> {
    first_of(rows_of::<SearchLine>(out), SEARCH_CAP as nat).map_values(|p: PkgView| hit(p, q))
}

/// The packages of some results.
pub open spec fn packages_of(hits: Seq<HitView>) -> Seq<PkgView> {
    hits.map_values(|h: HitView| h.pkg)
}

/// The results of a search, best first.
pub open spec fn results_of(q: Seq<char>, out: Seq<char>) -> Seq<PkgView> {
    packages_of(sorted_by(hits_of(q, out), order_of::<Hit>()))
}

fn ranked(found: Vec<Pkg>, q: &str) -> (r: Vec<Hit>)
    ensures
        views(r@) == views(found@).map_values(|p: PkgView| hit(p, q@)),
{
    broadcast use lemma_views_push;

    let ghost all = views(found@).map_values(|p: PkgView| hit(p, q@));
    let mut out: Vec<Hit> = Vec::new();
    assert(all.take(0) =~= views(out@));
    for pkg in it: found
        invariant
            it.seq() == found@,
            all == views(found@).map_values(|p: PkgView| hit(p, q@)),
            views(out@) == all.take(it.index() as int),
    {
        assert(all[it.index() as int] == hit(pkg@, q@));
        let chars = to_chars(pkg.name.as_str());
        let h = Hit { rank: rank(pkg.name.as_str(), q), bytes: byte_len(&chars), pkg };
        assert(h@ =~= all[it.index() as int]);
        out.push(h);
        assert(all.take(it.index() as int + 1) =~= all.take(it.index() as int).push(
            all[it.index() as int],
        ));
    }
    assert(all.take(all.len() as int) =~= all);
    out
}

fn unranked(hits: Vec<Hit>) -> (r: Vec<Pkg>)
    ensures
        views(r@) == packages_of(views(hits@)),
{
    broadcast use lemma_views_push;

    let ghost all = packages_of(views(hits@));
    let mut out: Vec<Pkg> = Vec::new();
    assert(all.take(0) =~= views(out@));
    for h in it: hits
        invariant
            it.seq() == hits@,
            all == packages_of(views(hits@)),
            views(out@) == all.take(it.index() as int),
    {
        out.push(h.pkg);
        assert(all[it.index() as int] == h.pkg@);
        assert(all.take(it.index() as int + 1) =~= all.take(it.index() as int).push(
            all[it.index() as int],
        ));
    }
    assert(all.take(all.len() as int) =~= all);
    out
}

/// Reads and ranks search output against a query already in lowercase.
pub fn rank_results(q: &str, out: &str) -> (r: Vec<Pkg>)
    ensures
        views(r@) == results_of(q@, out@),
{
    let mut found = rows::<SearchLine>(out);
    if found.len() > SEARCH_CAP {
        let ghost before = found@;
        found.truncate(SEARCH_CAP);
        assert(views(found@) =~= views(before).take(SEARCH_CAP as int));
    }
    unranked(stable_sort(ranked(found, q)))
}

/// Reads and ranks the search output for a query.
pub fn search_repo(query: &str, out: &str) -> (r: Vec<Pkg>)
    ensures
        views(r@) == results_of(lowercase(query@), out@),
{
    let q = query.to_lowercase();
    rank_results(q.as_str(), out)
}

/// Search results never outnumber the cap and stand in the order of their
/// rank, then length, then name.
pub proof fn law_search_ranked(q: Seq<char>, out: Seq<char>)
    ensures
        results_of(q, out).len() <= SEARCH_CAP,
        forall|i: int, j: int|
            0 <= i < j < results_of(q, out).len() ==> !better(
                hit(#[trigger] results_of(q, out)[j], q),
                hit(#[trigger] results_of(q, out)[i], q),
            ),
{
    let hs = hits_of(q, out);
    let s = sorted_by(hs, order_of::<Hit>());
    law_ranked_sort::<Hit>(hs);
    assert forall|i: int| 0 <= i < s.len() implies #[trigger] s[i] == hit(s[i].pkg, q) by {
        law_sort_same_items(hs, order_of::<Hit>());
        assert(hs.contains(s[i]));
    }
    assert forall|i: int, j: int| 0 <= i < j < results_of(q, out).len() implies !better(
        hit(#[trigger] results_of(q, out)[j], q),
        hit(#[trigger] results_of(q, out)[i], q),
    ) by {
        assert(s[i] == hit(s[i].pkg, q));
        assert(s[j] == hit(s[j].pkg, q));
        assert(!order_of::<Hit>()(s[j], s[i]));
    }
}

// --- installs and removals --------------------------------------------------

/// What the screening of the packages of one run comes to.
pub enum ScreenView {
    /// Every package may be acted on.
    Clear,
    /// The package database must be asked about this one.
    Ask(nat),
    /// The run is refused.
    Refused(Seq<char>),
}

/// Screens the packages in order. A removal needs the database's answer about
/// each package that is not critical anyway, in `answers` one for each package
/// passed so far; every name must be a plausible one.
pub open spec fn screen_from(
    verb: Seq<char>,
    pkgs: Seq<Seq<char>>,
    answers: Seq<Option<Seq<char>>>,
    i: nat,
) -> ScreenView
    decreases pkgs.len() - i,
{
    if i >= pkgs.len() {
        ScreenView::Clear
    } else {
        let pkg = pkgs[i as int];
        let removal = verb == "remove"@;
        if removal && !critical(pkg) && i >= answers.len() {
            ScreenView::Ask(i)
        } else if removal && (critical(pkg) || answer_flags(answers[i as int])) {
            ScreenView::Refused(
                pkg + " is a protected system package and can't be removed here."@,
            )
        } else if !is_pkg_name(pkg) {
            ScreenView::Refused("Refusing to act on suspicious package name: "@ + quoted(pkg))
        } else {
            screen_from(verb, pkgs, answers, i + 1)
        }
    }
}

/// The views of the database's answers.
pub open spec fn answers_view(answers: Seq<Option<String>>) -> Seq<Option<Seq<char>>> {
    answers.map_values(|a: Option<String>| opt(a))
}

/// What the screening of the packages of one run comes to.
pub enum Screen {
    Clear,
    Ask(usize),
    Refused(String),
}

impl View for Screen {
    type V = ScreenView;

    open spec fn view(&self) -> ScreenView {
        match *self {
            Screen::Clear => ScreenView::Clear,
            Screen::Ask(i) => ScreenView::Ask(i as nat),
            Screen::Refused(m) => ScreenView::Refused(m@),
        }
    }
}

fn screen(verb: &str, pkgs: &[String], answers: &[Option<String>]) -> (r: Screen)
    ensures
        r@ == screen_from(verb@, views(pkgs@), answers_view(answers@), 0),
{
    let removal = same_text(verb, "remove");
    let ghost vs = views(pkgs@);
    let ghost ans = answers_view(answers@);
    let mut i: usize = 0;
    while i < pkgs.len()
        invariant
            i <= pkgs@.len(),
            vs == views(pkgs@),
            ans == answers_view(answers@),
            removal == (verb@ == "remove"@),
            screen_from(verb@, vs, ans, 0) == screen_from(verb@, vs, ans, i as nat),
        decreases pkgs@.len() - i,
    {
        let pkg = pkgs[i].as_str();
        assert(vs[i as int] == pkg@);
        if removal && !is_critical(pkg) && i >= answers.len() {
            return Screen::Ask(i);
        }
        if removal {
            if i < answers.len() {
                assert(ans[i as int] == opt(answers@[i as int]));
            }
            if is_critical(pkg) || flags(&answers[i]) {
                let mut m = pkg.to_owned();
                m.append(" is a protected system package and can't be removed here.");
                return Screen::Refused(m);
            }
        }
        if !valid_pkg(pkg) {
            let mut m = "Refusing to act on suspicious package name: ".to_owned();
            let q = quote(pkg);
            m.append(q.as_str());
            return Screen::Refused(m);
        }
        i += 1;
    }
    Screen::Clear
}

/// What a run is called while it goes on.
pub open spec fn title_of(verb: Seq<char>, pkgs: Seq<Seq<char>>) -> Seq<char> {
    let doing = if verb == "remove"@ {
        "Removing"@
    } else {
        "Installing"@
    };
    let noun = if pkgs.len() == 1 {
        pkgs[0]
    } else {
        decimal(pkgs.len()) + " packages"@
    };
    doing + " "@ + noun + "…"@
}

fn title(verb: &str, pkgs: &[String]) -> (r: String)
    ensures
        r@ == title_of(verb@, views(pkgs@)),
{
    let mut t = if same_text(verb, "remove") {
        "Removing".to_owned()
    } else {
        "Installing".to_owned()
    };
    t.append(" ");
    if pkgs.len() == 1 {
        assert(views(pkgs@)[0] == pkgs@[0]@);
        t.append(pkgs[0].as_str());
    } else {
        let n = show(pkgs.len() as u64);
        t.append(n.as_str());
        t.append(" packages");
    }
    t.append("…");
    assert(t@ =~= title_of(verb@, views(pkgs@)));
    t
}

proof fn lemma_screened(
    verb: Seq<char>,
    pkgs: Seq<Seq<char>>,
    answers: Seq<Option<Seq<char>>>,
    i: nat,
)
    requires
        screen_from(verb, pkgs, answers, i) == ScreenView::Clear,
    ensures
        forall|k: int|
            i <= k < pkgs.len() ==> is_pkg_name(#[trigger] pkgs[k]) && (verb == "remove"@
                ==> !critical(pkgs[k]) && k < answers.len() && !answer_flags(answers[k])),
    decreases pkgs.len() - i,
{
    if i < pkgs.len() {
        lemma_screened(verb, pkgs, answers, i + 1);
    }
}

/// A run that passes the screening names only valid packages, whose names the
/// shell does not act on but for a `~` in front. A removal that passes it
/// touches no critical package and none that the database flags or did not
/// answer for.
pub proof fn law_screened_run_is_safe(
    verb: Seq<char>,
    pkgs: Seq<Seq<char>>,
    answers: Seq<Option<Seq<char>>>,
)
    requires
        screen_from(verb, pkgs, answers, 0) == ScreenView::Clear,
    ensures
        forall|k: int|
            0 <= k < pkgs.len() ==> is_pkg_name(#[trigger] pkgs[k]) && (pkgs[k][0] != '~'
                ==> shell_inert(pkgs[k])) && (verb == "remove"@ ==> !critical(pkgs[k]) && k
                < answers.len() && !answer_flags(answers[k])),
{
    lemma_screened(verb, pkgs, answers, 0);
    assert forall|k: int| 0 <= k < pkgs.len() && pkgs[k][0] != '~' implies shell_inert(
        #[trigger] pkgs[k],
    ) by {
        law_pkg_name_inert(pkgs[k]);
    }
}

// --- state ------------------------------------------------------------------

/// What the package tab shows.
pub struct AppsState {
    pub loading: bool,
    pub loaded: bool,
    pub installed: Vec<Pkg>,
    pub total_size_kb: u64,
    pub error: Option<String>,
    pub searching: bool,
    pub searched: bool,
    pub results: Vec<Pkg>,
    pub busy: bool,
    pub action_title: String,
    pub log: Vec<String>,
    pub action_done: bool,
    pub action_ok: bool,
}

#[verifier::ext_equal]
pub struct AppsView {
    pub loading: bool,
    pub loaded: bool,
    pub installed: Seq<PkgView>,
    pub total_size_kb: u64,
    pub error: Option<Seq<char>>,
    pub searching: bool,
    pub searched: bool,
    pub results: Seq<PkgView>,
    pub busy: bool,
    pub action_title: Seq<char>,
    pub log: Seq<Seq<char>>,
    pub action_done: bool,
    pub action_ok: bool,
}

impl View for AppsState {
    type V = AppsView;

    open spec fn view(&self) -> AppsView {
        AppsView {
            loading: self.loading,
            loaded: self.loaded,
            installed: views(self.installed@),
            total_size_kb: self.total_size_kb,
            error: opt(self.error),
            searching: self.searching,
            searched: self.searched,
            results: views(self.results@),
            busy: self.busy,
            action_title: self.action_title@,
            log: views(self.log@),
            action_done: self.action_done,
            action_ok: self.action_ok,
        }
    }
}

impl AppsView {
    /// Nothing read, nothing running.
    pub open spec fn initial() -> AppsView {
        AppsView {
            loading: false,
            loaded: false,
            installed: Seq::empty(),
            total_size_kb: 0,
            error: None,
            searching: false,
            searched: false,
            results: Seq::empty(),
            busy: false,
            action_title: Seq::empty(),
            log: Seq::empty(),
            action_done: false,
            action_ok: false,
        }
    }
}

impl Default for AppsState {
    fn default() -> (r: Self)
        ensures
            r@ == AppsView::initial(),
    {
        let r = AppsState {
            loading: false,
            loaded: false,
            installed: Vec::new(),
            total_size_kb: 0,
            error: None,
            searching: false,
            searched: false,
            results: Vec::new(),
            busy: false,
            action_title: String::new(),
            log: Vec::new(),
            action_done: false,
            action_ok: false,
        };
        assert(r@ =~= AppsView::initial());
        r
    }
}

/// What comes of asking for a run.
pub enum Run {
    /// Something is running already, or there is nothing to do.
    Idle,
    /// Ask the package database about this package, then ask again.
    Ask(usize),
    /// Refused; the state says why.
    Refused,
    /// Run this script as the administrator.
    Start(String),
}

/// The package tab's worker: what may start, and what each outcome changes.
pub struct Apps {
    pub state: AppsState,
}

impl View for Apps {
    type V = AppsView;

    open spec fn view(&self) -> AppsView {
        self.state@
    }
}

impl Apps {
    pub fn new() -> (r: Self)
        ensures
            r@ == AppsView::initial(),
    {
        Apps { state: AppsState::default() }
    }

    pub fn is_busy(&self) -> (r: bool)
        ensures
            r == self@.busy,
    {
        self.state.busy
    }

    pub fn is_loading(&self) -> (r: bool)
        ensures
            r == self@.loading,
    {
        self.state.loading
    }

    pub fn is_searching(&self) -> (r: bool)
        ensures
            r == self@.searching,
    {
        self.state.searching
    }

    /// Whether a reading of the installed list starts now.
    pub fn load_installed(&mut self) -> (start: bool)
        ensures
            start == !(old(self)@.loading || old(self)@.busy),
            final(self)@ == if start {
                AppsView { loading: true, error: None, ..old(self)@ }
            } else {
                old(self)@
            },
    {
        if self.is_loading() || self.is_busy() {
            return false;
        }
        self.state.loading = true;
        self.state.error = None;
        true
    }

    /// Takes in a finished reading of the installed list.
    pub fn installed_loaded(&mut self, installed: Vec<Pkg>, total_size_kb: u64)
        ensures
            final(self)@ == (AppsView {
                installed: views(installed@),
                total_size_kb,
                error: if installed@.len() == 0 {
                    Some("Couldn't read installed packages (is dpkg available?)"@)
                } else {
                    old(self)@.error
                },
                loading: false,
                loaded: true,
                ..old(self)@
            }),
    {
        self.state.total_size_kb = total_size_kb;
        if installed.len() == 0 {
            self.state.error = Some(
                "Couldn't read installed packages (is dpkg available?)".to_owned(),
            );
        }
        self.state.installed = installed;
        self.state.loading = false;
        self.state.loaded = true;
    }

    /// The query to search for, if a search starts now.
    pub fn search(&mut self, query: &str) -> (r: Option<String>)
        ensures
            opt(r) == (if trimmed(query@).len() == 0 || old(self)@.searching || old(self)@.busy {
                None
            } else {
                Some(trimmed(query@))
            }),
            final(self)@ == (AppsView {
                searching: old(self)@.searching || r is Some,
                ..old(self)@
            }),
    {
        let c = to_chars(query);
        let q = trim(&c);
        if q.len() == 0 || self.is_searching() || self.is_busy() {
            return None;
        }
        self.state.searching = true;
        Some(to_text(q))
    }

    /// Takes in a finished search.
    pub fn search_done(&mut self, results: Vec<Pkg>)
        ensures
            final(self)@ == (AppsView {
                results: views(results@),
                searching: false,
                searched: true,
                ..old(self)@
            }),
    {
        self.state.results = results;
        self.state.searching = false;
        self.state.searched = true;
    }

    /// Asks to install or remove one package.
    pub fn run(&mut self, verb: &str, pkg: &str, answers: &[Option<String>]) -> (r: Run)
        ensures
            run_outcome(old(self)@, verb@, seq![pkg@], answers_view(answers@), r),
            final(self)@ == run_state(old(self)@, verb@, seq![pkg@], answers_view(answers@)),
    {
        let mut pkgs: Vec<String> = Vec::new();
        pkgs.push(pkg.to_owned());
        assert(views(pkgs@) =~= seq![pkg@]);
        self.run_multi(verb, &pkgs, answers)
    }

    /// Asks to install or remove some packages in one go, with the database's
    /// answers so far.
    pub fn run_multi(&mut self, verb: &str, pkgs: &[String], answers: &[Option<String>]) -> (r: Run)
        ensures
            run_outcome(old(self)@, verb@, views(pkgs@), answers_view(answers@), r),
            final(self)@ == run_state(old(self)@, verb@, views(pkgs@), answers_view(answers@)),
    {
        broadcast use lemma_views_push;

        if self.is_busy() || self.is_loading() || pkgs.len() == 0 {
            return Run::Idle;
        }
        match screen(verb, pkgs, answers) {
            Screen::Ask(i) => {
                return Run::Ask(i);
            },
            Screen::Refused(m) => {
                self.state.error = Some(m);
                return Run::Refused;
            },
            Screen::Clear => {},
        }
        self.state.busy = true;
        self.state.action_done = false;
        self.state.action_ok = false;
        self.state.action_title = title(verb, pkgs);
        let mut log: Vec<String> = Vec::new();
        log.push("Requesting administrator access…".to_owned());
        self.state.log = log;
        self.state.error = None;
        assert(self@.log =~= seq!["Requesting administrator access…"@]);
        Run::Start(apt_script(verb, pkgs))
    }

    /// Adds a line to the transcript.
    pub fn push_log(&mut self, line: String)
        ensures
            final(self)@ == (AppsView {
                log: newest_lines(old(self)@.log.push(line@)),
                ..old(self)@
            }),
    {
        push_log(&mut self.state.log, line);
    }

    /// Takes in a run that ended, with a fresh reading of the installed list.
    pub fn finish(
        &mut self,
        installed: Vec<Pkg>,
        total_size_kb: u64,
        ok: bool,
        err: Option<String>,
    )
        ensures
            final(self)@ == (AppsView {
                busy: false,
                action_done: true,
                action_ok: ok,
                installed: if installed@.len() == 0 {
                    old(self)@.installed
                } else {
                    views(installed@)
                },
                total_size_kb: if installed@.len() == 0 {
                    old(self)@.total_size_kb
                } else {
                    total_size_kb
                },
                error: if err is Some {
                    opt(err)
                } else {
                    old(self)@.error
                },
                ..old(self)@
            }),
    {
        self.state.busy = false;
        self.state.action_done = true;
        self.state.action_ok = ok;
        if installed.len() > 0 {
            self.state.installed = installed;
            self.state.total_size_kb = total_size_kb;
        }
        if err.is_some() {
            self.state.error = err;
        }
    }

    /// Puts a finished run's transcript away.
    pub fn dismiss(&mut self)
        ensures
            final(self)@ == (AppsView { log: Seq::empty(), action_done: false, ..old(self)@ }),
    {
        self.state.log.clear();
        self.state.action_done = false;
        assert(views(self.state.log@) =~= Seq::empty());
    }
}

/// Whether a run is considered at all.
pub open spec fn run_considered(s: AppsView, pkgs: Seq<Seq<char>>) -> bool {
    !s.busy && !s.loading && pkgs.len() > 0
}

/// What asking for a run gives.
pub open spec fn run_outcome(
    s: AppsView,
    verb: Seq<char>,
    pkgs: Seq<Seq<char>>,
    answers: Seq<Option<Seq<char>>>,
    r: Run,
) -> bool {
    if !run_considered(s, pkgs) {
        r == Run::Idle
    } else {
        match screen_from(verb, pkgs, answers, 0) {
            ScreenView::Ask(i) => r matches Run::Ask(k) && k == i,
            ScreenView::Refused(_) => r == Run::Refused,
            ScreenView::Clear => r matches Run::Start(script) && script@ == apt_script_of(
                verb,
                pkgs,
            ),
        }
    }
}

/// The state after asking for a run.
pub open spec fn run_state(
    s: AppsView,
    verb: Seq<char>,
    pkgs: Seq<Seq<char>>,
    answers: Seq<Option<Seq<char>>>,
) -> AppsView {
    if !run_considered(s, pkgs) {
        s
    } else {
        match screen_from(verb, pkgs, answers, 0) {
            ScreenView::Ask(_) => s,
            ScreenView::Refused(m) => AppsView { error: Some(m), ..s },
            ScreenView::Clear => AppsView {
                busy: true,
                action_done: false,
                action_ok: false,
                action_title: title_of(verb, pkgs),
                log: seq!["Requesting administrator access…"@],
                error: None,
                ..s
            },
        }
    }
}

/// The message of a run that did not succeed.
pub fn run_error(err: &str) -> (r: String)
    ensures
        r@ == failure_of(err@, "The operation didn't finish. See the log above."@),
{
    failure(err, "The operation didn't finish. See the log above.")
}

// --- what is shown ----------------------------------------------------------

/// A size in KiB as bytes, capped at 64 bits.
pub open spec fn kib_bytes(kb: u64) -> u64 {
    if kb * 1024 <= u64::MAX {
        (kb * 1024) as u64
    } else {
        u64::MAX
    }
}

/// The text of a size in KiB.
pub fn size_text(kb: u64) -> (r: String)
    ensures
        r@ == bytes_text(kib_bytes(kb) as nat),
{
    fmt_bytes(
        if kb <= u64::MAX / 1024 {
            kb * 1024
        } else {
            u64::MAX
        },
    )
}

/// Whether a package matches what is being looked for, by name or summary.
pub open spec fn pkg_matches(p: PkgView, needle: Seq<char>) -> bool {
    text_matches(p.name, needle) || text_matches(p.summary, needle)
}

/// How many packages are protected.
pub open spec fn protected_count(pkgs: Seq<PkgView>) -> nat
    decreases pkgs.len(),
{
    if pkgs.len() == 0 {
        0
    } else {
        protected_count(pkgs.drop_last()) + (if pkgs.last().protected {
            1nat
        } else {
            0nat
        })
    }
}

/// What is said above the installed list, of which `shown` are shown.
pub open spec fn summary_text(s: AppsView, shown: nat) -> Seq<char> {
    decimal(shown) + " of "@ + decimal(s.installed.len()) + " packages · "@ + bytes_text(
        kib_bytes(s.total_size_kb) as nat,
    ) + " total · "@ + decimal(protected_count(s.installed)) + " protected · sorted by size"@
}

/// How many search results are shown.
pub const SHOWN_RESULTS: usize = 10;

/// What is said above the search results.
pub open spec fn results_text(s: AppsView) -> Seq<char> {
    "Showing the "@ + decimal(
        if s.results.len() < SHOWN_RESULTS {
            s.results.len()
        } else {
            SHOWN_RESULTS as nat
        },
    ) + " best matches of "@ + decimal(s.results.len())
}

/// What the search side of the tab can show.
#[derive(Clone, Copy, Debug, PartialEq, Eq, Structural)]
pub enum SearchPane {
    Searching,
    /// Nothing was searched for yet.
    Prompt,
    /// The search found nothing.
    Nothing,
    Results,
}

pub open spec fn search_pane_of(s: AppsView) -> SearchPane {
    if s.searching {
        SearchPane::Searching
    } else if !s.searched {
        SearchPane::Prompt
    } else if s.results.len() == 0 {
        SearchPane::Nothing
    } else {
        SearchPane::Results
    }
}

impl AppsState {
    /// The positions of the installed packages that match a lowercase needle.
    pub fn filter_lower(&self, needle: &str) -> (r: Vec<usize>)
        ensures
            places(r@) == indices(
                self@.installed.len(),
                |i: int| pkg_matches(self@.installed[i], needle@),
            ),
    {
        let ghost vs = self@.installed;
        let ghost p = |i: int| pkg_matches(vs[i], needle@);
        let mut r: Vec<usize> = Vec::new();
        let mut i: usize = 0;
        assert(places(r@) =~= indices(0, p));
        while i < self.installed.len()
            invariant
                i <= self.installed@.len(),
                vs == views(self.installed@),
                p == (|i: int| pkg_matches(vs[i], needle@)),
                places(r@) == indices(i as nat, p),
            decreases self.installed@.len() - i,
        {
            assert(vs[i as int] == self.installed@[i as int]@);
            if matches_lower(self.installed[i].name.as_str(), needle) || matches_lower(
                self.installed[i].summary.as_str(),
                needle,
            ) {
                let ghost before = r@;
                r.push(i);
                assert(places(r@) =~= places(before).push(i as int));
            }
            i += 1;
        }
        r
    }

    /// The positions of the installed packages that match a filter.
    pub fn filter(&self, filter: &str) -> (r: Vec<usize>)
        ensures
            places(r@) == indices(
                self@.installed.len(),
                |i: int| pkg_matches(self@.installed[i], lowercase(filter@)),
            ),
    {
        let needle = filter.to_lowercase();
        self.filter_lower(needle.as_str())
    }

    /// What is said above the installed list.
    pub fn summary(&self, shown: usize) -> (r: String)
        ensures
            r@ == summary_text(self@, shown as nat),
    {
        let ghost vs = self@.installed;
        let mut n: usize = 0;
        let mut i: usize = 0;
        while i < self.installed.len()
            invariant
                n <= i <= self.installed@.len(),
                vs == views(self.installed@),
                n == protected_count(vs.take(i as int)),
            decreases self.installed@.len() - i,
        {
            assert(vs.take(i as int + 1).drop_last() =~= vs.take(i as int));
            assert(vs.take(i as int + 1).last() == self.installed@[i as int]@);
            if self.installed[i].protected {
                n += 1;
            }
            i += 1;
        }
        assert(vs.take(i as int) =~= vs);
        let mut m = show(shown as u64);
        m.append(" of ");
        let all = show(self.installed.len() as u64);
        m.append(all.as_str());
        m.append(" packages · ");
        let size = size_text(self.total_size_kb);
        m.append(size.as_str());
        m.append(" total · ");
        let protected = show(n as u64);
        m.append(protected.as_str());
        m.append(" protected · sorted by size");
        m
    }

    /// What is said above the search results.
    pub fn results_line(&self) -> (r: String)
        ensures
            r@ == results_text(self@),
    {
        let n = self.results.len();
        let shown = if n < SHOWN_RESULTS {
            n
        } else {
            SHOWN_RESULTS
        };
        let mut m = "Showing the ".to_owned();
        let k = show(shown as u64);
        m.append(k.as_str());
        m.append(" best matches of ");
        let all = show(n as u64);
        m.append(all.as_str());
        m
    }

    /// What the search side of the tab shows.
    pub fn search_pane(&self) -> (r: SearchPane)
        ensures
            r == search_pane_of(self@),
    {
        if self.searching {
            SearchPane::Searching
        } else if !self.searched {
            SearchPane::Prompt
        } else if self.results.len() == 0 {
            SearchPane::Nothing
        } else {
            SearchPane::Results
        }
    }

    /// Whether a package of this name is installed.
    pub fn is_installed(&self, name: &str) -> (r: bool)
        ensures
            r == exists|i: int|
                0 <= i < self@.installed.len() && (#[trigger] self@.installed[i]).name == name@,
    {
        let ghost vs = self@.installed;
        let mut i: usize = 0;
        while i < self.installed.len()
            invariant
                i <= self.installed@.len(),
                vs == views(self.installed@),
                forall|k: int| 0 <= k < i ==> (#[trigger] vs[k]).name != name@,
            decreases self.installed@.len() - i,
        {
            assert(vs[i as int] == self.installed@[i as int]@);
            if same_text(self.installed[i].name.as_str(), name) {
                assert(self@.installed[i as int].name == name@);
                return true;
            }
            i += 1;
        }
        false
    }

    /// The names of the installed packages.
    pub fn names(&self) -> (r: Vec<String>)
        ensures
            views(r@) == self@.installed.map_values(|p: PkgView| p.name),
    {
        broadcast use lemma_views_push;

        let ghost all = self@.installed.map_values(|p: PkgView| p.name);
        let mut r: Vec<String> = Vec::new();
        let mut i: usize = 0;
        assert(views(r@) =~= all.take(0));
        while i < self.installed.len()
            invariant
                i <= self.installed@.len(),
                all == views(self.installed@).map_values(|p: PkgView| p.name),
                views(r@) == all.take(i as int),
            decreases self.installed@.len() - i,
        {
            assert(all[i as int] == self.installed@[i as int].name@);
            r.push(self.installed[i].name.clone());
            i += 1;
            assert(all.take(i as int) =~= all.take(i as int - 1).push(all[i as int - 1]));
        }
        assert(all.take(i as int) =~= all);
        r
    }
}

// --- what the lists must satisfy --------------------------------------------

/// A package name is not empty, is shorter than two hundred characters, and
/// holds nothing but ASCII letters and digits and the five extra characters.
pub proof fn law_pkg_name(p: Seq<char>)
    ensures
        is_pkg_name(p) <==> 0 < p.len() && p.len() < 200 && forall|i: int|
            0 <= i < p.len() ==> ('0' <= #[trigger] p[i] && p[i] <= '9') || ('a' <= p[i] && p[i]
                <= 'z') || ('A' <= p[i] && p[i] <= 'Z') || p[i] == '.' || p[i] == '+' || p[i] == '-'
                || p[i] == ':' || p[i] == '~',
{
    reveal_strlit(".+-:~");
    let x = ".+-:~"@;
    assert(x =~= seq!['.', '+', '-', ':', '~']);
    law_plain(p, x, 200);
    assert forall|c: char| x.contains(c) <==> c == '.' || c == '+' || c == '-' || c == ':' || c
        == '~' by {
        assert(x[0] == '.' && x[1] == '+' && x[2] == '-' && x[3] == ':' && x[4] == '~');
    }
}

/// The script runs one verb of `apt-get` over the packages in order, without
/// prompts, and keeps configuration files.
pub proof fn law_apt_script(verb: Seq<char>, pkgs: Seq<Seq<char>>, p: Seq<char>)
    ensures
        apt_script_of(verb, seq![p])
            == "DEBIAN_FRONTEND=noninteractive apt-get -y -o Dpkg::Options::=--force-confdef -o Dpkg::Options::=--force-confold "@
            + verb + " "@ + p + " 2>&1"@,
        pkgs.len() > 0 ==> apt_script_of(verb, pkgs.push(p)) == apt_script_of(verb, pkgs).take(
            apt_script_of(verb, pkgs).len() - " 2>&1"@.len(),
        ) + " "@ + p + " 2>&1"@,
{
    law_joined(pkgs, p, " "@);
    if pkgs.len() > 0 {
        let head =
            "DEBIAN_FRONTEND=noninteractive apt-get -y -o Dpkg::Options::=--force-confdef -o Dpkg::Options::=--force-confold "@
            + verb + " "@;
        let s = apt_script_of(verb, pkgs);
        assert(s.take(s.len() - " 2>&1"@.len()) =~= head + joined(pkgs, " "@));
        assert(apt_script_of(verb, pkgs.push(p)) =~= head + joined(pkgs, " "@) + " "@ + p
            + " 2>&1"@);
    }
}

/// These names, and every name that begins like one of these, are critical;
/// no other is.
pub proof fn law_critical(name: Seq<char>)
    ensures
        critical(name) <==> {
            ||| name == "libc-bin"@
            ||| name == "udev"@
            ||| name == "init"@
            ||| name == "init-system-helpers"@
            ||| name == "sudo"@
            ||| name == "pkexec"@
            ||| name == "gdm3"@
            ||| name == "lightdm"@
            ||| name == "sddm"@
            ||| name == "gnome-shell"@
            ||| name == "gnome-session"@
            ||| name == "mutter"@
            ||| name == "ubuntu-session"@
            ||| name == "ubuntu-desktop"@
            ||| name == "ubuntu-desktop-minimal"@
            ||| name == "network-manager"@
            ||| name == "netplan.io"@
            ||| name == "efibootmgr"@
            ||| name == "intel-microcode"@
            ||| name == "amd64-microcode"@
            ||| "linux-image"@.is_prefix_of(name)
            ||| "linux-headers"@.is_prefix_of(name)
            ||| "linux-modules"@.is_prefix_of(name)
            ||| "linux-generic"@.is_prefix_of(name)
            ||| "linux-firmware"@.is_prefix_of(name)
            ||| "linux-oem"@.is_prefix_of(name)
            ||| "linux-lowlatency"@.is_prefix_of(name)
            ||| "grub"@.is_prefix_of(name)
            ||| "shim"@.is_prefix_of(name)
            ||| "libc6"@.is_prefix_of(name)
            ||| "libgcc"@.is_prefix_of(name)
            ||| "libstdc++"@.is_prefix_of(name)
            ||| "systemd"@.is_prefix_of(name)
            ||| "libpam"@.is_prefix_of(name)
            ||| "libapt"@.is_prefix_of(name)
            ||| "apt"@.is_prefix_of(name)
            ||| "dpkg"@.is_prefix_of(name)
            ||| "xserver-xorg"@.is_prefix_of(name)
            ||| "polkit"@.is_prefix_of(name)
            ||| "policykit"@.is_prefix_of(name)
        },
{
    let n = critical_names();
    assert(n.len() == 20);
    assert(n[0] == "libc-bin"@ && n[1] == "udev"@ && n[2] == "init"@ && n[3]
        == "init-system-helpers"@ && n[4] == "sudo"@ && n[5] == "pkexec"@ && n[6] == "gdm3"@ && n[7]
        == "lightdm"@ && n[8] == "sddm"@ && n[9] == "gnome-shell"@ && n[10] == "gnome-session"@
        && n[11] == "mutter"@ && n[12] == "ubuntu-session"@ && n[13] == "ubuntu-desktop"@ && n[14]
        == "ubuntu-desktop-minimal"@ && n[15] == "network-manager"@ && n[16] == "netplan.io"@
        && n[17] == "efibootmgr"@ && n[18] == "intel-microcode"@ && n[19] == "amd64-microcode"@);
    let f = critical_families();
    assert(f.len() == 20);
    assert(f[0] == "linux-image"@ && f[1] == "linux-headers"@ && f[2] == "linux-modules"@ && f[3]
        == "linux-generic"@ && f[4] == "linux-firmware"@ && f[5] == "linux-oem"@ && f[6]
        == "linux-lowlatency"@ && f[7] == "grub"@ && f[8] == "shim"@ && f[9] == "libc6"@ && f[10]
        == "libgcc"@ && f[11] == "libstdc++"@ && f[12] == "systemd"@ && f[13] == "libpam"@ && f[14]
        == "libapt"@ && f[15] == "apt"@ && f[16] == "dpkg"@ && f[17] == "xserver-xorg"@ && f[18]
        == "polkit"@ && f[19] == "policykit"@);
}

/// The database's answer keeps a package that it calls essential or required,
/// and so does no answer.
pub proof fn law_answer(essential: Seq<char>, priority: Seq<char>, more: Seq<char>)
    requires
        !essential.contains('\t'),
        !priority.contains('\t'),
    ensures
        answer_flags(None),
        answer_flags(Some(essential + seq!['\t'] + priority)) <==> trimmed(essential) == "yes"@
            || trimmed(priority) == "required"@,
        answer_flags(Some(essential + seq!['\t'] + (priority + seq!['\t'] + more))) <==> trimmed(
            essential,
        ) == "yes"@ || trimmed(priority) == "required"@,
        answer_flags(Some(essential)) <==> trimmed(essential) == "yes"@,
{
    reveal_strlit("\t");
    reveal_strlit("required");
    assert("\t"@ =~= seq!['\t']);
    law_split(essential, priority, '\t', 1);
    law_split(essential, priority + seq!['\t'] + more, '\t', 1);
    law_split(priority, more, '\t', 1);
    assert("required"@.len() == 8);
    assert(trimmed(Seq::<char>::empty()).len() == 0);
}

/// A line of the installed listing gives a package exactly where its status
/// begins with two `i` and it has a name. The package is protected where the
/// line calls it essential or required, or where its name is critical: exactly
/// where a removal would be refused with the same answer of the database.
pub proof fn law_installed_line(f: Seq<Seq<char>>)
    requires
        1 <= f.len() <= 6,
        forall|i: int| 0 <= i < f.len() && i < 5 ==> !(#[trigger] f[i]).contains('\t'),
    ensures
        ({
            let row = installed_row(joined(f, "\t"@));
            let none = Seq::<char>::empty();
            let size = if f.len() > 2 {
                f[2]
            } else {
                none
            };
            let essential = if f.len() > 3 {
                f[3]
            } else {
                none
            };
            let priority = if f.len() > 4 {
                f[4]
            } else {
                none
            };
            let summary = if f.len() > 5 {
                f[5]
            } else {
                none
            };
            &&& row is Some <==> f[0].len() >= 2 && f[0][0] == 'i' && f[0][1] == 'i' && f.len() > 1
                && f[1].len() > 0
            &&& row matches Some(p) ==> {
                &&& p.name == f[1]
                &&& p.summary == summary
                &&& p.protected <==> trimmed(essential) == "yes"@ || trimmed(priority)
                    == "required"@ || critical(f[1])
                &&& p.protected <==> critical(f[1]) || answer_flags(
                    Some(essential + seq!['\t'] + priority),
                )
                &&& match bounded_of(trimmed(size), u64::MAX as nat) {
                    Some(n) => p.size_kb == n,
                    None => p.size_kb == 0,
                }
            }
        }),
{
    reveal_strlit("\t");
    reveal_strlit("ii");
    assert("\t"@ =~= seq!['\t']);
    assert("ii"@ =~= seq!['i', 'i']);
    law_split_at_most_joined(f, '\t', 6);
    lemma_prefix_chars(f[0], "ii"@);
    assert("ii"@.is_prefix_of(f[0]) <==> f[0].len() >= 2 && f[0][0] == 'i' && f[0][1] == 'i');
    let none = Seq::<char>::empty();
    let e = if f.len() > 3 {
        f[3]
    } else {
        none
    };
    let p = if f.len() > 4 {
        f[4]
    } else {
        none
    };
    law_answer(e, p, none);
}

/// The installed list is by falling size; packages of one size are by name.
pub proof fn law_installed_order(out: Seq<char>, i: int, j: int)
    requires
        0 <= i < j < installed_of(out).len(),
    ensures
        installed_of(out)[i].size_kb >= installed_of(out)[j].size_kb,
        installed_of(out)[i].size_kb == installed_of(out)[j].size_kb ==> !text_lt(
            installed_of(out)[j].name,
            installed_of(out)[i].name,
        ),
{
    law_installed_by_size(out);
    let a = installed_of(out)[i];
    let b = installed_of(out)[j];
    assert(!order_of::<Pkg>()(b, a));
}

/// The total is what each listed package takes, added up.
pub proof fn law_total_size(line: Seq<char>, rest: Seq<char>)
    requires
        !line.contains('\n'),
        !seq!['\r'].is_suffix_of(line),
    ensures
        total_size(line + seq!['\n'] + rest) == total_size(rest) + (match installed_row(line) {
            Some(p) => p.size_kb as nat,
            None => 0,
        }),
        total_size(Seq::empty()) == 0,
{
    law_rows::<InstalledLine>(line, rest);
    assert(<InstalledLine as LineReader>::row_of(line) == installed_row(line));
    let r = rows_of::<InstalledLine>(rest);
    if let Some(p) = installed_row(line) {
        assert(sizes(seq![p] + r) =~= seq![p.size_kb] + sizes(r));
        law_sum(seq![p.size_kb], sizes(r), p.size_kb);
    }
    assert(sizes(rows_of::<InstalledLine>(Seq::<char>::empty())) =~= Seq::<u64>::empty());
}

/// A line of search output names a package ahead of the first dash between
/// spaces and says what it is behind it; without one it names none.
pub proof fn law_search_line(name: Seq<char>, summary: Seq<char>, line: Seq<char>)
    requires
        find_in(name + " - "@ + summary, " - "@) == Some(name.len() as int),
    ensures
        search_row(name + " - "@ + summary) matches Some(p) && p.name == trimmed(name) && p.summary
            == trimmed(summary) && p.size_kb == 0 && !p.protected,
        !occurs(line, " - "@) ==> search_row(line) is None,
{
    let s = name + " - "@ + summary;
    reveal_strlit(" - ");
    assert(s.take(name.len() as int) =~= name);
    assert(s.skip(name.len() as int + 3) =~= summary);
}

/// Of four kinds of matches the same name is the best, then one that begins
/// with the query, then one that holds it.
pub proof fn law_rank(name: Seq<char>, q: Seq<char>)
    ensures
        rank_of(name, q) == 0 <==> name == q,
        rank_of(name, q) == 1 <==> name != q && q.is_prefix_of(name),
        rank_of(name, q) == 2 <==> !q.is_prefix_of(name) && occurs(name, q),
        rank_of(name, q) == 3 <==> !occurs(name, q),
{
    law_find(name, q);
    if name == q {
        assert(q =~= name.subrange(0, q.len() as int));
    }
    if q.is_prefix_of(name) {
        assert(name.subrange(0, 0int + q.len()) == q);
    }
}

/// Search results are the first three hundred, better matches first, then
/// shorter names, then by name.
pub proof fn law_search_results(q: Seq<char>, out: Seq<char>)
    ensures
        ({
            let r = results_of(q, out);
            let all = rows_of::<SearchLine>(out);
            &&& r.len() == (if all.len() > 300 {
                300
            } else {
                all.len()
            })
            &&& forall|i: int|
                0 <= i < r.len() ==> exists|k: int| 0 <= k < all.len() && k < 300 && #[trigger] r[i] == all[k]
            &&& forall|i: int, j: int|
                0 <= i < j < r.len() ==> {
                    let a = (#[trigger] r[i]).name;
                    let b = (#[trigger] r[j]).name;
                    let ra = rank_of(lowercase(a), q);
                    let rb = rank_of(lowercase(b), q);
                    &&& ra <= rb
                    &&& ra == rb ==> byte_count(a) <= byte_count(b)
                    &&& ra == rb && byte_count(a) == byte_count(b) ==> !text_lt(b, a)
                }
        }),
{
    let r = results_of(q, out);
    let all = rows_of::<SearchLine>(out);
    let hits = hits_of(q, out);
    let sorted = sorted_by(hits, order_of::<Hit>());
    law_ranked_sort::<Hit>(hits);
    law_sort_same_items(hits, order_of::<Hit>());
    law_search_ranked(q, out);
    assert forall|i: int| 0 <= i < r.len() implies exists|k: int|
        0 <= k < all.len() && k < 300 && #[trigger] r[i] == all[k] by {
        assert(r[i] == sorted[i].pkg);
        assert(hits.contains(sorted[i]));
        let k = choose|k: int| 0 <= k < hits.len() && hits[k] == sorted[i];
        assert(hits[k].pkg == all[k]);
    }
    assert forall|i: int, j: int| 0 <= i < j < r.len() implies {
        let a = (#[trigger] r[i]).name;
        let b = (#[trigger] r[j]).name;
        let ra = rank_of(lowercase(a), q);
        let rb = rank_of(lowercase(b), q);
        &&& ra <= rb
        &&& ra == rb ==> byte_count(a) <= byte_count(b)
        &&& ra == rb && byte_count(a) == byte_count(b) ==> !text_lt(b, a)
    } by {
        assert(!better(hit(r[j], q), hit(r[i], q)));
    }
}

/// The first package that does not pass decides the screening; where all
/// pass, nothing is in the way.
pub proof fn law_screening(
    verb: Seq<char>,
    pkgs: Seq<Seq<char>>,
    answers: Seq<Option<Seq<char>>>,
    i: int,
)
    requires
        0 <= i <= pkgs.len(),
        forall|k: int|
            0 <= k < i ==> is_pkg_name(#[trigger] pkgs[k]) && (verb == "remove"@ ==> !critical(
                pkgs[k],
            ) && k < answers.len() && !answer_flags(answers[k])),
    ensures
        ({
            let s = screen_from(verb, pkgs, answers, 0);
            &&& i == pkgs.len() ==> s == ScreenView::Clear
            &&& i < pkgs.len() ==> {
                let p = pkgs[i];
                &&& verb == "remove"@ && critical(p) ==> s == ScreenView::Refused(
                    p + " is a protected system package and can't be removed here."@,
                )
                &&& verb == "remove"@ && !critical(p) && answers.len() <= i ==> s
                    == ScreenView::Ask(i as nat)
                &&& verb == "remove"@ && i < answers.len() && answer_flags(answers[i]) ==> s
                    == ScreenView::Refused(
                    p + " is a protected system package and can't be removed here."@,
                )
                &&& !is_pkg_name(p) && (verb != "remove"@ || (!critical(p) && i < answers.len()
                    && !answer_flags(answers[i]))) ==> s == ScreenView::Refused(
                    "Refusing to act on suspicious package name: "@ + quoted(p),
                )
            }
        }),
{
    lemma_screen_skips(verb, pkgs, answers, 0, i as nat);
}

proof fn lemma_screen_skips(
    verb: Seq<char>,
    pkgs: Seq<Seq<char>>,
    answers: Seq<Option<Seq<char>>>,
    from: nat,
    i: nat,
)
    requires
        from <= i <= pkgs.len(),
        forall|k: int|
            0 <= k < i ==> is_pkg_name(#[trigger] pkgs[k]) && (verb == "remove"@ ==> !critical(
                pkgs[k],
            ) && k < answers.len() && !answer_flags(answers[k])),
    ensures
        screen_from(verb, pkgs, answers, from) == screen_from(verb, pkgs, answers, i),
    decreases i - from,
{
    if from < i {
        assert(is_pkg_name(pkgs[from as int]));
        lemma_screen_skips(verb, pkgs, answers, from + 1, i);
    }
}

/// A run starts only where nothing else goes on and every package passed; it
/// says so and clears what an earlier one left. Otherwise only the reason of a
/// refusal changes.
pub proof fn law_run(
    s: AppsView,
    verb: Seq<char>,
    pkgs: Seq<Seq<char>>,
    answers: Seq<Option<Seq<char>>>,
    r: Run,
)
    requires
        run_outcome(s, verb, pkgs, answers, r),
    ensures
        ({
            let after = run_state(s, verb, pkgs, answers);
            let screened = screen_from(verb, pkgs, answers, 0);
            let free = !s.busy && !s.loading && pkgs.len() > 0;
            &&& !free <==> r is Idle
            &&& r is Start <==> free && screened == ScreenView::Clear
            &&& r is Start ==> r->Start_0@ == apt_script_of(verb, pkgs)
            &&& r is Ask <==> free && screened is Ask
            &&& r is Ask ==> r->Ask_0 as nat == screened->Ask_0
            &&& r is Refused <==> free && screened is Refused
            &&& r is Idle || r is Ask ==> after == s
            &&& r is Refused ==> after == (AppsView { error: Some(screened->Refused_0), ..s })
            &&& r is Start ==> after.busy && !after.action_done && !after.action_ok && after.error
                is None && after.log == seq!["Requesting administrator access…"@]
                && after.action_title == title_of(verb, pkgs) && after.installed == s.installed
                && after.total_size_kb == s.total_size_kb && after.results == s.results
                && after.loading == s.loading && after.loaded == s.loaded && after.searching
                == s.searching && after.searched == s.searched
        }),
{
}

/// A run is called by what it does and to what.
pub proof fn law_title(verb: Seq<char>, pkgs: Seq<Seq<char>>)
    ensures
        verb == "remove"@ && pkgs.len() == 1 ==> title_of(verb, pkgs) == "Removing"@ + " "@
            + pkgs[0] + "…"@,
        verb == "remove"@ && pkgs.len() != 1 ==> title_of(verb, pkgs) == "Removing"@ + " "@
            + (decimal(pkgs.len()) + " packages"@) + "…"@,
        verb != "remove"@ && pkgs.len() == 1 ==> title_of(verb, pkgs) == "Installing"@ + " "@
            + pkgs[0] + "…"@,
        verb != "remove"@ && pkgs.len() != 1 ==> title_of(verb, pkgs) == "Installing"@ + " "@
            + (decimal(pkgs.len()) + " packages"@) + "…"@,
{
}

/// A KiB is 1024 bytes; what does not fit in 64 bits is the largest number.
pub proof fn law_kib_bytes(kb: u64)
    ensures
        kb < 0x40_0000_0000_0000 ==> kib_bytes(kb) == kb * 1024,
        kb >= 0x40_0000_0000_0000 ==> kib_bytes(kb) == u64::MAX,
{
}

/// Protected packages are counted one by one.
pub proof fn law_protected_count(pkgs: Seq<PkgView>, p: PkgView)
    ensures
        protected_count(Seq::empty()) == 0,
        p.protected ==> protected_count(pkgs.push(p)) == protected_count(pkgs) + 1,
        !p.protected ==> protected_count(pkgs.push(p)) == protected_count(pkgs),
{
    assert(pkgs.push(p).drop_last() =~= pkgs);
}

/// A package is found by its name or by its summary, whatever the case, and
/// always where nothing is looked for.
pub proof fn law_pkg_matches(p: PkgView, needle: Seq<char>)
    ensures
        pkg_matches(p, needle) <==> needle.len() == 0 || occurs(lowercase(p.name), needle)
            || occurs(lowercase(p.summary), needle),
{
}

/// The search tab says that it searches, that it has not yet, that it found
/// nothing, or what it found: one of these.
pub proof fn law_search_pane(s: AppsView)
    ensures
        search_pane_of(s) is Searching <==> s.searching,
        search_pane_of(s) is Prompt <==> !s.searching && !s.searched,
        search_pane_of(s) is Nothing <==> !s.searching && s.searched && s.results.len() == 0,
        search_pane_of(s) is Results <==> !s.searching && s.searched && s.results.len() > 0,
{
}

/// At most ten results are shown, and the line says how many of how many.
pub proof fn law_results_text(s: AppsView)
    ensures
        s.results.len() < 10 ==> results_text(s) == "Showing the "@ + decimal(s.results.len())
            + " best matches of "@ + decimal(s.results.len()),
        s.results.len() >= 10 ==> results_text(s) == "Showing the "@ + decimal(10)
            + " best matches of "@ + decimal(s.results.len()),
{
}

/// What is said of a package, a hit and the tab is said of the fields.
pub proof fn law_fields(pkg: Pkg, hit: Hit, state: AppsState, tab: Apps, screen: Screen)
    ensures
        pkg@.name == pkg.name@,
        pkg@.size_kb == pkg.size_kb,
        pkg@.summary == pkg.summary@,
        pkg@.protected == pkg.protected,
        hit@.rank == hit.rank,
        hit@.bytes == hit.bytes as nat,
        hit@.pkg == hit.pkg@,
        state@.loading == state.loading,
        state@.loaded == state.loaded,
        state@.installed == views(state.installed@),
        state@.total_size_kb == state.total_size_kb,
        state@.error == opt(state.error),
        state@.searching == state.searching,
        state@.searched == state.searched,
        state@.results == views(state.results@),
        state@.busy == state.busy,
        state@.action_title == state.action_title@,
        state@.log == views(state.log@),
        state@.action_done == state.action_done,
        state@.action_ok == state.action_ok,
        tab@ == tab.state@,
        screen == Screen::Clear ==> screen@ == ScreenView::Clear,
        screen matches Screen::Ask(i) ==> screen@ == ScreenView::Ask(i as nat),
        screen matches Screen::Refused(m) ==> screen@ == ScreenView::Refused(m@),
{
}

/// A listing is read line by line: the installed packages.
pub proof fn law_installed_lines(line: Seq<char>, rest: Seq<char>)
    requires
        !line.contains('\n'),
        !seq!['\r'].is_suffix_of(line),
    ensures
        installed_row(line) matches Some(row) ==> rows_of::<InstalledLine>(line + seq!['\n'] + rest) == seq![
            row,
        ] + rows_of::<InstalledLine>(rest),
        installed_row(line) is None ==> rows_of::<InstalledLine>(line + seq!['\n'] + rest) == rows_of::<InstalledLine>(
            rest,
        ),
        rows_of::<InstalledLine>(Seq::empty()).len() == 0,
{
    law_rows::<InstalledLine>(line, rest);
}

/// A listing is read line by line: what a search found.
pub proof fn law_search_lines(line: Seq<char>, rest: Seq<char>)
    requires
        !line.contains('\n'),
        !seq!['\r'].is_suffix_of(line),
    ensures
        search_row(line) matches Some(row) ==> rows_of::<SearchLine>(line + seq!['\n'] + rest) == seq![
            row,
        ] + rows_of::<SearchLine>(rest),
        search_row(line) is None ==> rows_of::<SearchLine>(line + seq!['\n'] + rest) == rows_of::<SearchLine>(
            rest,
        ),
        rows_of::<SearchLine>(Seq::empty()).len() == 0,
{
    law_rows::<SearchLine>(line, rest);
}

/// The answers stand for their texts.
pub proof fn law_answer_texts(answers: Seq<Option<String>>, i: int)
    ensures
        answers_view(answers).len() == answers.len(),
        0 <= i < answers.len() ==> answers_view(answers)[i] == opt(answers[i]),
{
}

/// What is said of the list: how many are shown of how many, their size and
/// how many cannot be removed.
pub proof fn law_summary(s: AppsView, shown: nat)
    ensures
        summary_text(s, shown) == decimal(shown) + " of "@ + decimal(s.installed.len())
            + " packages · "@ + bytes_text(kib_bytes(s.total_size_kb) as nat) + " total · "@
            + decimal(protected_count(s.installed)) + " protected · sorted by size"@,
{
}

/// At first nothing is listed, found, running or said.
pub proof fn law_at_first()
    ensures
        ({
            let s = AppsView::initial();
            &&& !s.loading && !s.loaded && !s.searching && !s.searched && !s.busy
            &&& !s.action_done && !s.action_ok
            &&& s.installed.len() == 0 && s.results.len() == 0 && s.log.len() == 0
            &&& s.total_size_kb == 0 && s.action_title.len() == 0 && s.error is None
        }),
{
}

} // verus!
