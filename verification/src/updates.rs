//! System updates: what is pending, and the runs that install it.

use vstd::prelude::*;
use vstd::string::*;

use crate::cleanup::{is_snap_name, valid_snap_name};
use crate::log::{failure, failure_of, last_error, last_error_of, newest_lines, push_log};
use crate::number::{decimal, show};
use crate::order::first_of;
use crate::text::{
    is_text, law_rows, law_split_once, lemma_views_push, lines_of, opt, rows, rows_of, split_once,
    split_once_at, to_text, trim, trimmed, views, words, words_of, LineReader,
};

verus! {

/// How many names of upgradable packages are kept.
pub const PACKAGE_CAP: usize = 200;

/// The script that installs every upgrade without prompts, keeping existing
/// configuration files.
pub fn install_script() -> (r: &'static str)
    ensures
        r@
            == "apt-get update && DEBIAN_FRONTEND=noninteractive apt-get -y -o Dpkg::Options::=--force-confdef -o Dpkg::Options::=--force-confold dist-upgrade 2>&1"@,
{
    "apt-get update && DEBIAN_FRONTEND=noninteractive apt-get -y -o Dpkg::Options::=--force-confdef -o Dpkg::Options::=--force-confold dist-upgrade 2>&1"
}

/// The script that refreshes every snap.
pub fn refresh_script() -> (r: &'static str)
    ensures
        r@ == "snap refresh 2>&1"@,
{
    "snap refresh 2>&1"
}

// --- readings ---------------------------------------------------------------

/// The package that a line of upgrades names, ahead of its first slash.
pub open spec fn upgradable_row(line: Seq<char>) -> Option<Seq<char>> {
    match split_once_at(line, "/"@) {
        Some((name, _)) => if trimmed(name).len() > 0 {
            Some(trimmed(name))
        } else {
            None
        },
        None => None,
    }
}

/// Reads a line of upgrades.
pub struct UpgradeLine;

impl LineReader for UpgradeLine {
    type Row = String;

    open spec fn row_of(line: Seq<char>) -> Option<Seq<char>> {
        upgradable_row(line)
    }

    fn read(line: &[char]) -> (r: Option<String>) {
        match split_once(line, "/") {
            Some((name, _)) => {
                let n = trim(name);
                if n.len() > 0 {
                    Some(to_text(n))
                } else {
                    None
                }
            },
            None => None,
        }
    }
}

/// How many packages can be upgraded, and the first of their names.
pub fn list_upgradable(out: &str) -> (r: (usize, Vec<String>))
    ensures
        r.0 == rows_of::<UpgradeLine>(out@).len(),
        views(r.1@) == first_of(rows_of::<UpgradeLine>(out@), PACKAGE_CAP as nat),
{
    let mut names = rows::<UpgradeLine>(out);
    let count = names.len();
    let ghost all = views(names@);
    assert(all.len() == names@.len());
    if count > PACKAGE_CAP {
        names.truncate(PACKAGE_CAP);
        assert(views(names@) =~= all.take(PACKAGE_CAP as int));
    }
    (count, names)
}

/// The snap that a row of pending refreshes names, with its new version.
pub open spec fn refresh_row(line: Seq<char>) -> Option<(Seq<char>, Seq<char>)> {
    let cols = words_of(line);
    if cols.len() >= 6 && cols[0] != "Name"@ && is_snap_name(cols[0]) {
        Some((cols[0], cols[1]))
    } else {
        None
    }
}

/// Reads a row of pending refreshes.
pub struct RefreshLine;

impl LineReader for RefreshLine {
    type Row = (String, String);

    open spec fn row_of(line: Seq<char>) -> Option<(Seq<char>, Seq<char>)> {
        refresh_row(line)
    }

    fn read(line: &[char]) -> (r: Option<(String, String)>) {
        let cols = words(line);
        if cols.len() < 6 {
            return None;
        }
        assert(views(cols@)[0] == cols@[0]@);
        assert(views(cols@)[1] == cols@[1]@);
        let name = to_text(cols[0]);
        if is_text(cols[0], "Name") || !valid_snap_name(name.as_str()) {
            return None;
        }
        Some((name, to_text(cols[1])))
    }
}

pub fn parse_snap_refresh(out: &str) -> (r: Vec<(String, String)>)
    ensures
        views(r@) == rows_of::<RefreshLine>(out@),
{
    rows::<RefreshLine>(out)
}

/// What is said of a check that could not read everything.
pub open spec fn check_error_of(apt_failed: bool, snap_failed: bool) -> Option<Seq<char>> {
    if !apt_failed && !snap_failed {
        None
    } else {
        let what = if apt_failed && snap_failed {
            "APT or snap updates"@
        } else if apt_failed {
            "APT updates"@
        } else {
            "snap updates"@
        };
        Some(
            "Couldn't check for "@ + what
                + " — the tools didn't respond. Counts may be incomplete; try “Check again”."@,
        )
    }
}

pub fn check_error(apt_failed: bool, snap_failed: bool) -> (r: Option<String>)
    ensures
        opt(r) == check_error_of(apt_failed, snap_failed),
{
    if !apt_failed && !snap_failed {
        return None;
    }
    let mut m = "Couldn't check for ".to_owned();
    m.append(
        if apt_failed && snap_failed {
            "APT or snap updates"
        } else if apt_failed {
            "APT updates"
        } else {
            "snap updates"
        },
    );
    m.append(" — the tools didn't respond. Counts may be incomplete; try “Check again”.");
    Some(m)
}

/// Whether a restart is due, given whether each of the two flag files exists.
pub fn reboot_required(run: bool, var_run: bool) -> (r: bool)
    ensures
        r == (run || var_run),
{
    run || var_run
}

/// What a check found: the upgrades and the refreshes, each unless it could
/// not be read, and whether a restart is due.
pub struct Reading {
    pub apt: Option<(usize, Vec<String>)>,
    pub snaps: Option<Vec<(String, String)>>,
    pub reboot_required: bool,
}

#[verifier::ext_equal]
pub struct ReadingView {
    pub apt: Option<(nat, Seq<Seq<char>>)>,
    pub snaps: Option<Seq<(Seq<char>, Seq<char>)>>,
    pub reboot_required: bool,
}

impl View for Reading {
    type V = ReadingView;

    open spec fn view(&self) -> ReadingView {
        ReadingView {
            apt: match self.apt {
                Some((n, names)) => Some((n as nat, views(names@))),
                None => None,
            },
            snaps: match self.snaps {
                Some(s) => Some(views(s@)),
                None => None,
            },
            reboot_required: self.reboot_required,
        }
    }
}

/// What a command wrote, and whether it succeeded.
pub struct Reply {
    pub ok: bool,
    pub text: String,
}

/// The text of a reply that counts: the command ran to its end and succeeded.
pub open spec fn reply_text(r: Option<Reply>) -> Option<Seq<char>> {
    match r {
        Some(reply) => if reply.ok {
            Some(reply.text@)
        } else {
            None
        },
        None => None,
    }
}

/// What a check found, from the replies of the two tools. A reply that failed
/// or did not come leaves its part unknown; without snap there is nothing to
/// refresh.
pub open spec fn reading_from(
    apt: Option<Seq<char>>,
    has_snap: bool,
    snap: Option<Seq<char>>,
    reboot_required: bool,
) -> ReadingView {
    ReadingView {
        apt: match apt {
            Some(out) => Some(
                (
                    rows_of::<UpgradeLine>(out).len(),
                    first_of(rows_of::<UpgradeLine>(out), PACKAGE_CAP as nat),
                ),
            ),
            None => None,
        },
        snaps: if !has_snap {
            Some(Seq::empty())
        } else {
            match snap {
                Some(out) => Some(rows_of::<RefreshLine>(out)),
                None => None,
            }
        },
        reboot_required,
    }
}

pub fn reading_of(
    apt: &Option<Reply>,
    has_snap: bool,
    snap: &Option<Reply>,
    reboot_required: bool,
) -> (r: Reading)
    ensures
        r@ == reading_from(reply_text(*apt), has_snap, reply_text(*snap), reboot_required),
{
    let upgrades = match apt {
        Some(reply) => if reply.ok {
            Some(list_upgradable(reply.text.as_str()))
        } else {
            None
        },
        None => None,
    };
    let snaps = if !has_snap {
        let none: Vec<(String, String)> = Vec::new();
        assert(views(none@) =~= Seq::empty());
        Some(none)
    } else {
        match snap {
            Some(reply) => if reply.ok {
                Some(parse_snap_refresh(reply.text.as_str()))
            } else {
                None
            },
            None => None,
        }
    };
    Reading { apt: upgrades, snaps, reboot_required }
}

// --- state ------------------------------------------------------------------

/// What the updates tab shows.
pub struct Updates {
    pub checking: bool,
    pub checked: bool,
    pub count: usize,
    pub packages: Vec<String>,
    pub snap_count: usize,
    pub snap_packages: Vec<(String, String)>,
    pub reboot_required: bool,
    /// The last check could not read everything: the counts may be too low.
    pub check_failed: bool,
    pub error: Option<String>,
    pub installing: bool,
    pub install_log: Vec<String>,
    pub install_done: bool,
    pub install_ok: bool,
}

#[verifier::ext_equal]
pub struct UpdatesView {
    pub checking: bool,
    pub checked: bool,
    pub count: nat,
    pub packages: Seq<Seq<char>>,
    pub snap_count: nat,
    pub snap_packages: Seq<(Seq<char>, Seq<char>)>,
    pub reboot_required: bool,
    pub check_failed: bool,
    pub error: Option<Seq<char>>,
    pub installing: bool,
    pub install_log: Seq<Seq<char>>,
    pub install_done: bool,
    pub install_ok: bool,
}

impl View for Updates {
    type V = UpdatesView;

    open spec fn view(&self) -> UpdatesView {
        UpdatesView {
            checking: self.checking,
            checked: self.checked,
            count: self.count as nat,
            packages: views(self.packages@),
            snap_count: self.snap_count as nat,
            snap_packages: views(self.snap_packages@),
            reboot_required: self.reboot_required,
            check_failed: self.check_failed,
            error: opt(self.error),
            installing: self.installing,
            install_log: views(self.install_log@),
            install_done: self.install_done,
            install_ok: self.install_ok,
        }
    }
}

impl UpdatesView {
    /// Nothing checked, nothing running.
    pub open spec fn initial() -> UpdatesView {
        UpdatesView {
            checking: false,
            checked: false,
            count: 0,
            packages: Seq::empty(),
            snap_count: 0,
            snap_packages: Seq::empty(),
            reboot_required: false,
            check_failed: false,
            error: None,
            installing: false,
            install_log: Seq::empty(),
            install_done: false,
            install_ok: false,
        }
    }

    /// With what a check found; what could not be read counts as none.
    pub open spec fn with_reading(self, r: ReadingView) -> UpdatesView {
        UpdatesView {
            checked: true,
            check_failed: r.apt is None || r.snaps is None,
            count: match r.apt {
                Some((n, _)) => n,
                None => 0,
            },
            packages: match r.apt {
                Some((_, names)) => names,
                None => Seq::empty(),
            },
            snap_count: match r.snaps {
                Some(s) => s.len(),
                None => 0,
            },
            snap_packages: match r.snaps {
                Some(s) => s,
                None => Seq::empty(),
            },
            reboot_required: r.reboot_required,
            ..self
        }
    }

    /// A run has started.
    pub open spec fn started(self) -> UpdatesView {
        UpdatesView {
            installing: true,
            install_done: false,
            install_ok: false,
            install_log: seq!["Requesting administrator access…"@],
            error: None,
            ..self
        }
    }
}

impl Default for Updates {
    fn default() -> (r: Self)
        ensures
            r@ == UpdatesView::initial(),
    {
        let r = Updates {
            checking: false,
            checked: false,
            count: 0,
            packages: Vec::new(),
            snap_count: 0,
            snap_packages: Vec::new(),
            reboot_required: false,
            check_failed: false,
            error: None,
            installing: false,
            install_log: Vec::new(),
            install_done: false,
            install_ok: false,
        };
        assert(r@ =~= UpdatesView::initial());
        r
    }
}

/// The updates tab's worker: what may start, and what each outcome changes.
pub struct UpdatesChecker {
    pub state: Updates,
}

impl View for UpdatesChecker {
    type V = UpdatesView;

    open spec fn view(&self) -> UpdatesView {
        self.state@
    }
}

impl UpdatesChecker {
    pub fn new() -> (r: Self)
        ensures
            r@ == UpdatesView::initial(),
    {
        UpdatesChecker { state: Updates::default() }
    }

    pub fn is_checking(&self) -> (r: bool)
        ensures
            r == self@.checking,
    {
        self.state.checking
    }

    pub fn is_installing(&self) -> (r: bool)
        ensures
            r == self@.installing,
    {
        self.state.installing
    }

    /// Whether a check starts now.
    pub fn check(&mut self) -> (start: bool)
        ensures
            start == !(old(self)@.checking || old(self)@.installing),
            final(self)@ == if start {
                UpdatesView { checking: true, error: None, ..old(self)@ }
            } else {
                old(self)@
            },
    {
        if self.is_checking() || self.is_installing() {
            return false;
        }
        self.state.checking = true;
        self.state.error = None;
        true
    }

    fn take(&mut self, r: Reading)
        ensures
            final(self)@ == old(self)@.with_reading(r@),
    {
        self.state.checked = true;
        self.state.check_failed = r.apt.is_none() || r.snaps.is_none();
        match r.apt {
            Some((count, packages)) => {
                self.state.count = count;
                self.state.packages = packages;
            },
            None => {
                self.state.count = 0;
                self.state.packages = Vec::new();
                assert(views(self.state.packages@) =~= Seq::empty());
            },
        }
        match r.snaps {
            Some(snaps) => {
                self.state.snap_count = snaps.len();
                self.state.snap_packages = snaps;
            },
            None => {
                self.state.snap_count = 0;
                self.state.snap_packages = Vec::new();
                assert(views(self.state.snap_packages@) =~= Seq::empty());
            },
        }
        self.state.reboot_required = r.reboot_required;
    }

    /// Takes in a finished check.
    pub fn checked(&mut self, r: Reading)
        ensures
            final(self)@ == (UpdatesView {
                checking: false,
                error: check_error_of(r@.apt is None, r@.snaps is None),
                ..old(self)@.with_reading(r@)
            }),
    {
        self.state.checking = false;
        self.state.error = check_error(r.apt.is_none(), r.snaps.is_none());
        self.take(r);
    }

    /// Whether a run starts now.
    pub fn install(&mut self) -> (start: bool)
        ensures
            start == !(old(self)@.installing || old(self)@.checking),
            final(self)@ == if start {
                old(self)@.started()
            } else {
                old(self)@
            },
    {
        broadcast use lemma_views_push;

        if self.is_installing() || self.is_checking() {
            return false;
        }
        self.state.installing = true;
        self.state.install_done = false;
        self.state.install_ok = false;
        let mut log: Vec<String> = Vec::new();
        log.push("Requesting administrator access…".to_owned());
        self.state.install_log = log;
        self.state.error = None;
        assert(self@.install_log =~= seq!["Requesting administrator access…"@]);
        true
    }

    /// Whether a refresh of the snaps starts now; it runs as an install does.
    pub fn refresh_snaps(&mut self) -> (start: bool)
        ensures
            start == !(old(self)@.installing || old(self)@.checking),
            final(self)@ == if start {
                old(self)@.started()
            } else {
                old(self)@
            },
    {
        self.install()
    }

    /// Adds a line to the transcript.
    pub fn push_log(&mut self, line: String)
        ensures
            final(self)@ == (UpdatesView {
                install_log: newest_lines(old(self)@.install_log.push(line@)),
                ..old(self)@
            }),
    {
        push_log(&mut self.state.install_log, line);
    }

    /// Takes in a run that ended, with a fresh reading. The run's own message
    /// comes before one of the reading.
    pub fn finish(&mut self, r: Reading, ok: bool, err: Option<String>)
        ensures
            final(self)@ == (UpdatesView {
                installing: false,
                install_done: true,
                install_ok: ok,
                error: if err is Some {
                    opt(err)
                } else if old(self)@.error is None {
                    check_error_of(r@.apt is None, r@.snaps is None)
                } else {
                    old(self)@.error
                },
                ..old(self)@.with_reading(r@)
            }),
    {
        self.state.installing = false;
        self.state.install_done = true;
        self.state.install_ok = ok;
        if err.is_some() {
            self.state.error = err;
        } else if self.state.error.is_none() {
            self.state.error = check_error(r.apt.is_none(), r.snaps.is_none());
        }
        self.take(r);
    }

    /// Puts a finished run's transcript away.
    pub fn dismiss(&mut self)
        ensures
            final(self)@ == (UpdatesView {
                install_log: Seq::empty(),
                install_done: false,
                ..old(self)@
            }),
    {
        self.state.install_log.clear();
        self.state.install_done = false;
        assert(views(self.state.install_log@) =~= Seq::empty());
    }
}

/// The message of a refresh that did not succeed.
pub fn refresh_error(err: &str) -> (r: String)
    ensures
        r@ == failure_of(err@, "Snap refresh did not finish. See the log above."@),
{
    failure(err, "Snap refresh did not finish. See the log above.")
}

/// How an install that did not succeed ended: with a status, or without one
/// for a reason.
pub open spec fn install_error_of(err: Seq<char>, status: Result<Seq<char>, Seq<char>>) -> Seq<
    char,
> {
    match last_error_of(err) {
        Some(line) => line,
        None => match status {
            Ok(st) => "Update did not finish ("@ + st + "). See the log above."@,
            Err(e) => "Update failed to run: "@ + e,
        },
    }
}

/// The message of an install that did not succeed.
pub fn install_error(err: &str, status: &Result<String, String>) -> (r: String)
    ensures
        r@ == install_error_of(err@, crate::text::res(*status)),
{
    match last_error(err) {
        Some(line) => line,
        None => match status {
            Ok(st) => {
                let mut m = "Update did not finish (".to_owned();
                m.append(st.as_str());
                m.append("). See the log above.");
                m
            },
            Err(e) => {
                let mut m = "Update failed to run: ".to_owned();
                m.append(e.as_str());
                m
            },
        },
    }
}

// --- what is shown ----------------------------------------------------------

/// What the updates card shows below its heading.
#[derive(Clone, Copy, Debug, PartialEq, Eq, Structural)]
pub enum Card {
    /// A run and its transcript.
    Installing,
    /// A finished run and its transcript.
    Installed { ok: bool },
    Checking,
    NotChecked,
    /// The last check did not complete and found nothing.
    Unknown,
    UpToDate,
    /// Packages can be upgraded, perhaps snaps refreshed too.
    Pending,
    /// Only snaps can be refreshed.
    SnapsOnly,
}

/// What the updates card shows in a state.
pub open spec fn card_of(s: UpdatesView) -> Card {
    if s.installing {
        Card::Installing
    } else if s.install_done && s.install_log.len() > 0 {
        Card::Installed { ok: s.install_ok }
    } else if s.checking {
        Card::Checking
    } else if !s.checked {
        Card::NotChecked
    } else if s.count > 0 {
        Card::Pending
    } else if s.snap_count > 0 {
        Card::SnapsOnly
    } else if s.check_failed {
        Card::Unknown
    } else {
        Card::UpToDate
    }
}

impl Updates {
    pub fn card(&self) -> (r: Card)
        ensures
            r == card_of(self@),
    {
        if self.installing {
            Card::Installing
        } else if self.install_done && self.install_log.len() > 0 {
            Card::Installed { ok: self.install_ok }
        } else if self.checking {
            Card::Checking
        } else if !self.checked {
            Card::NotChecked
        } else if self.count > 0 {
            Card::Pending
        } else if self.snap_count > 0 {
            Card::SnapsOnly
        } else if self.check_failed {
            Card::Unknown
        } else {
            Card::UpToDate
        }
    }

    /// Whether an install is offered.
    pub fn can_install(&self) -> (r: bool)
        ensures
            r == (self@.checked && self@.count > 0 && !self@.checking && !self@.installing),
    {
        self.checked && self.count > 0 && !self.checking && !self.installing
    }
}

/// `n` things of this name, in the singular or the plural.
pub open spec fn counted(verb: Seq<char>, n: nat, noun: Seq<char>) -> Seq<char> {
    verb + " "@ + decimal(n) + " "@ + noun + (if n == 1 {
        ""@
    } else {
        "s"@
    })
}

/// A button's label such as `Install 3 updates`.
pub fn count_label(verb: &str, n: usize, noun: &str) -> (r: String)
    ensures
        r@ == counted(verb@, n as nat, noun@),
{
    let mut m = verb.to_owned();
    m.append(" ");
    let k = show(n as u64);
    m.append(k.as_str());
    m.append(" ");
    m.append(noun);
    m.append(
        if n == 1 {
            ""
        } else {
            "s"
        },
    );
    m
}

/// "Up to date" is said only after a check that read both kinds of updates and
/// found none: a check that failed is never good news.
pub proof fn law_up_to_date_is_honest(before: UpdatesView, r: ReadingView)
    ensures
        ({
            let s = UpdatesView {
                checking: false,
                error: check_error_of(r.apt is None, r.snaps is None),
                ..before.with_reading(r)
            };
            card_of(s) == Card::UpToDate ==> {
                &&& r.apt matches Some(a) && a.0 == 0
                &&& r.snaps matches Some(p) && p.len() == 0
                &&& s.error is None
            }
        }),
        !before.checked ==> card_of(before) != Card::UpToDate,
        before.check_failed ==> card_of(before) != Card::UpToDate,
{
}

// --- what a check must satisfy ----------------------------------------------

/// A line of upgrades names the package ahead of its first slash; a line
/// without one, or with nothing ahead of it, names none.
pub proof fn law_upgrade_line(name: Seq<char>, rest: Seq<char>)
    requires
        !name.contains('/'),
    ensures
        trimmed(name).len() > 0 ==> upgradable_row(name + seq!['/'] + rest) == Some(trimmed(name)),
        trimmed(name).len() == 0 ==> upgradable_row(name + seq!['/'] + rest) is None,
        upgradable_row(name) is None,
{
    reveal_strlit("/");
    assert("/"@ =~= seq!['/']);
    law_split_once(name, rest, '/');
}

/// A row of pending refreshes names a snap and its new version exactly where
/// it has six columns or more and the first is a valid name.
pub proof fn law_refresh_line(line: Seq<char>)
    ensures
        refresh_row(line) is Some <==> words_of(line).len() >= 6 && words_of(line)[0] != "Name"@
            && is_snap_name(words_of(line)[0]),
        refresh_row(line) is Some ==> refresh_row(line) == Some(
            (words_of(line)[0], words_of(line)[1]),
        ),
{
}

/// What is said of a check names the tools that failed, and nothing is said
/// where none did.
pub proof fn law_check_error()
    ensures
        check_error_of(false, false) is None,
        check_error_of(true, false) == Some(
            "Couldn't check for "@ + "APT updates"@
                + " — the tools didn't respond. Counts may be incomplete; try “Check again”."@,
        ),
        check_error_of(false, true) == Some(
            "Couldn't check for "@ + "snap updates"@
                + " — the tools didn't respond. Counts may be incomplete; try “Check again”."@,
        ),
        check_error_of(true, true) == Some(
            "Couldn't check for "@ + "APT or snap updates"@
                + " — the tools didn't respond. Counts may be incomplete; try “Check again”."@,
        ),
{
}

/// A reply counts only where the command came to its end and succeeded.
pub proof fn law_reply(r: Reply)
    ensures
        reply_text(None) is None,
        r.ok ==> reply_text(Some(r)) == Some(r.text@),
        !r.ok ==> reply_text(Some(r)) is None,
{
}

/// What is unknown of the packages or the snaps stays unknown. Packages are
/// counted, and the first two hundred named; without snap none is pending.
pub proof fn law_reading(
    apt: Option<Seq<char>>,
    has_snap: bool,
    snap: Option<Seq<char>>,
    reboot: bool,
)
    ensures
        ({
            let r = reading_from(apt, has_snap, snap, reboot);
            &&& r.reboot_required == reboot
            &&& r.apt is None <==> apt is None
            &&& apt matches Some(out) ==> (r.apt matches Some((n, names)) && n == rows_of::<
                UpgradeLine,
            >(out).len() && (n <= 200 ==> names == rows_of::<UpgradeLine>(out)) && (n > 200
                ==> names == rows_of::<UpgradeLine>(out).take(200)))
            &&& r.snaps is None <==> has_snap && snap is None
            &&& !has_snap ==> (r.snaps matches Some(s) && s.len() == 0)
            &&& has_snap && snap is Some ==> r.snaps == Some(rows_of::<RefreshLine>(snap->0))
        }),
{
}

/// After a check the counts are what it found; it failed where either kind
/// could not be read, and what could not be read counts as none.
pub proof fn law_checked(s: UpdatesView, r: ReadingView)
    ensures
        ({
            let t = s.with_reading(r);
            &&& t.checked
            &&& t.check_failed <==> r.apt is None || r.snaps is None
            &&& t.reboot_required == r.reboot_required
            &&& r.apt matches Some((n, names)) ==> t.count == n && t.packages == names
            &&& r.apt is None ==> t.count == 0 && t.packages.len() == 0
            &&& r.snaps matches Some(p) ==> t.snap_count == p.len() && t.snap_packages == p
            &&& r.snaps is None ==> t.snap_count == 0 && t.snap_packages.len() == 0
            &&& t.checking == s.checking && t.installing == s.installing && t.error == s.error
            &&& t.install_log == s.install_log && t.install_done == s.install_done && t.install_ok
                == s.install_ok
        }),
        s.started().installing,
        !s.started().install_done,
        !s.started().install_ok,
        s.started().error is None,
        s.started().install_log == seq!["Requesting administrator access…"@],
        s.started().count == s.count && s.started().snap_count == s.snap_count
            && s.started().checked == s.checked,
{
}

/// What the card shows: a run, its outcome, a check, or what the last check
/// found, in this order.
pub proof fn law_card(s: UpdatesView)
    ensures
        ({
            let shown = s.install_done && s.install_log.len() > 0;
            let idle = !s.installing && !shown && !s.checking;
            let c = card_of(s);
            &&& c is Installing <==> s.installing
            &&& c is Installed <==> !s.installing && shown
            &&& c is Installed ==> c->ok == s.install_ok
            &&& c is Checking <==> !s.installing && !shown && s.checking
            &&& c is NotChecked <==> idle && !s.checked
            &&& c is Pending <==> idle && s.checked && s.count > 0
            &&& c is SnapsOnly <==> idle && s.checked && s.count == 0 && s.snap_count > 0
            &&& c is Unknown <==> idle && s.checked && s.count == 0 && s.snap_count == 0
                && s.check_failed
            &&& c is UpToDate <==> idle && s.checked && s.count == 0 && s.snap_count == 0
                && !s.check_failed
        }),
{
}

/// One thing is said in the singular, any other number in the plural.
pub proof fn law_counted(verb: Seq<char>, n: nat, noun: Seq<char>)
    ensures
        n == 1 ==> counted(verb, n, noun) == verb + " "@ + decimal(1) + " "@ + noun,
        n != 1 ==> counted(verb, n, noun) == verb + " "@ + decimal(n) + " "@ + noun + "s"@,
{
    reveal_strlit("");
    assert(verb + " "@ + decimal(n) + " "@ + noun + ""@ =~= verb + " "@ + decimal(n) + " "@ + noun);
}

/// An install that failed says the last line of its errors, or else how it
/// ended.
pub proof fn law_install_error(err: Seq<char>, end: Seq<char>)
    ensures
        trimmed(err).len() > 0 ==> install_error_of(err, Ok(end)) == lines_of(trimmed(err)).last()
            && install_error_of(err, Err(end)) == lines_of(trimmed(err)).last(),
        trimmed(err).len() == 0 ==> install_error_of(err, Ok(end)) == "Update did not finish ("@
            + end + "). See the log above."@,
        trimmed(err).len() == 0 ==> install_error_of(err, Err(end)) == "Update failed to run: "@
            + end,
{
}

/// What is said of the updates is said of the fields.
pub proof fn law_fields(state: Updates, tab: UpdatesChecker, reading: Reading)
    ensures
        state@.checking == state.checking,
        state@.checked == state.checked,
        state@.count == state.count as nat,
        state@.packages == views(state.packages@),
        state@.snap_count == state.snap_count as nat,
        state@.snap_packages == views(state.snap_packages@),
        state@.reboot_required == state.reboot_required,
        state@.check_failed == state.check_failed,
        state@.error == opt(state.error),
        state@.installing == state.installing,
        state@.install_log == views(state.install_log@),
        state@.install_done == state.install_done,
        state@.install_ok == state.install_ok,
        tab@ == tab.state@,
        reading.apt is None ==> reading@.apt is None,
        reading.apt matches Some((n, names)) ==> reading@.apt == Some((n as nat, views(names@))),
        reading.snaps is None ==> reading@.snaps is None,
        reading.snaps matches Some(s) ==> reading@.snaps == Some(views(s@)),
        reading@.reboot_required == reading.reboot_required,
{
}

/// A listing is read line by line: what can be upgraded.
pub proof fn law_upgrade_lines(line: Seq<char>, rest: Seq<char>)
    requires
        !line.contains('\n'),
        !seq!['\r'].is_suffix_of(line),
    ensures
        upgradable_row(line) matches Some(row) ==> rows_of::<UpgradeLine>(line + seq!['\n'] + rest) == seq![
            row,
        ] + rows_of::<UpgradeLine>(rest),
        upgradable_row(line) is None ==> rows_of::<UpgradeLine>(line + seq!['\n'] + rest) == rows_of::<UpgradeLine>(
            rest,
        ),
        rows_of::<UpgradeLine>(Seq::empty()).len() == 0,
{
    law_rows::<UpgradeLine>(line, rest);
}

/// A listing is read line by line: what can be refreshed.
pub proof fn law_refresh_lines(line: Seq<char>, rest: Seq<char>)
    requires
        !line.contains('\n'),
        !seq!['\r'].is_suffix_of(line),
    ensures
        refresh_row(line) matches Some(row) ==> rows_of::<RefreshLine>(line + seq!['\n'] + rest) == seq![
            row,
        ] + rows_of::<RefreshLine>(rest),
        refresh_row(line) is None ==> rows_of::<RefreshLine>(line + seq!['\n'] + rest) == rows_of::<RefreshLine>(
            rest,
        ),
        rows_of::<RefreshLine>(Seq::empty()).len() == 0,
{
    law_rows::<RefreshLine>(line, rest);
}

/// At first nothing is known, running or said; an installation that starts
/// clears what was said, and leaves what is known.
pub proof fn law_at_first(s: UpdatesView)
    ensures
        ({
            let z = UpdatesView::initial();
            let n = s.started();
            &&& !z.checking && !z.checked && !z.check_failed && !z.reboot_required && !z.installing
            &&& !z.install_done && !z.install_ok && z.error is None && z.count == 0 && z.snap_count
                == 0
            &&& z.packages.len() == 0 && z.snap_packages.len() == 0 && z.install_log.len() == 0
            &&& n.installing && !n.install_done && !n.install_ok && n.error is None
            &&& n.install_log == seq!["Requesting administrator access…"@]
            &&& n.checking == s.checking && n.checked == s.checked && n.check_failed
                == s.check_failed
            &&& n.count == s.count && n.packages == s.packages && n.snap_count == s.snap_count
            &&& n.snap_packages == s.snap_packages && n.reboot_required == s.reboot_required
        }),
{
}

} // verus!
