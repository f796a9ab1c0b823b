//! The window: its tabs, what each frame starts, overall health, what needs
//! attention, the command palette, notices, and the process table.

use vstd::prelude::*;
use vstd::string::*;

use crate::fill::{
    critically_full, is_critically_full, is_nearly_full, law_levels_rise, nearly_full, percent,
    percent_of, tone_of, usage_tone,
};
use crate::metrics::DiskInfo;
use crate::number::{decimal, show};
use crate::order::{
    law_ranked_sort, law_sort_keeps_items, law_sort_same_items, law_text_order, order_of, sorted_by,
    stable_sort, text_less, text_lt, Ranked,
};
use crate::text::{
    kept, law_kept_in_order, lemma_kept_ends, lemma_kept_step, lemma_views_push, lowercase, opt,
    to_chars, to_text, views,
};
use crate::updates::Updates;
use crate::util::{join_path, path_in};
use crate::view::{indices, matches_lower, places, text_matches};

verus! {

// --- tabs -------------------------------------------------------------------

#[derive(Clone, Copy, Debug, PartialEq, Eq, Structural)]
pub enum Tab {
    Overview,
    Performance,
    Storage,
    Apps,
    Cleanup,
    Startup,
    Sources,
    SystemInfo,
    Updates,
}

/// A caption with a thin space behind each letter.
pub open spec fn spaced(label: Seq<char>) -> Seq<char>
    decreases label.len(),
{
    if label.len() == 0 {
        Seq::empty()
    } else {
        spaced(label.drop_last()).push(label.last()).push('\u{2009}')
    }
}

pub fn caption(label: &str) -> (r: String)
    ensures
        r@ == spaced(label@),
{
    let c = to_chars(label);
    let mut out: Vec<char> = Vec::new();
    let mut i: usize = 0;
    assert(out@ =~= spaced(label@.take(0)));
    while i < c.len()
        invariant
            i <= c@.len(),
            c@ == label@,
            out@ == spaced(label@.take(i as int)),
        decreases c@.len() - i,
    {
        assert(label@.take(i as int + 1).drop_last() =~= label@.take(i as int));
        out.push(c[i]);
        out.push('\u{2009}');
        i += 1;
    }
    assert(label@.take(i as int) =~= label@);
    to_text(&out)
}

/// What is said of a feature whose tools are missing.
pub fn unavailable(feature: &str) -> (r: String)
    ensures
        r@ == feature@ + " needs APT and pkexec, which aren't available on this system."@,
{
    let mut s = feature.to_owned();
    s.append(" needs APT and pkexec, which aren't available on this system.");
    s
}

/// What a tab that needs the package tools is for.
pub open spec fn feature_name(tab: Tab) -> Option<Seq<char>> {
    match tab {
        Tab::Apps => Some("App management"@),
        Tab::Cleanup => Some("Cleanup"@),
        Tab::Sources => Some("Repositories"@),
        Tab::Updates => Some("System updates"@),
        _ => None,
    }
}

/// What a tab is for that needs the package tools; the others need none.
pub fn feature_of(tab: Tab) -> (r: Option<&'static str>)
    ensures
        opt(r) == feature_name(tab),
{
    match tab {
        Tab::Apps => Some("App management"),
        Tab::Cleanup => Some("Cleanup"),
        Tab::Sources => Some("Repositories"),
        Tab::Updates => Some("System updates"),
        _ => None,
    }
}

/// A name with a count, such as `Processes (12)`.
pub fn with_count(name: &str, n: usize) -> (r: String)
    ensures
        r@ == name@ + " ("@ + decimal(n as nat) + ")"@,
{
    let mut s = name.to_owned();
    s.append(" (");
    let k = show(n as u64);
    s.append(k.as_str());
    s.append(")");
    s
}

// --- what a frame starts ----------------------------------------------------

/// Milliseconds between refreshes of the cheap metrics in a focused window.
pub const REFRESH: u64 = 1000;

/// The same in a window without focus.
pub const IDLE_REFRESH: u64 = 3000;

/// Milliseconds between readings of the disks.
pub const DISK_REFRESH: u64 = 8000;

/// Milliseconds between readings of the process list.
pub const PROC_REFRESH: u64 = 2000;

/// What is started once, the first time it is needed.
#[derive(Clone, Copy, Debug, PartialEq, Eq, Structural)]
pub struct Kicked {
    pub updates: bool,
    pub system: bool,
    pub apps: bool,
    pub cleanup: bool,
    pub startup: bool,
    pub repos: bool,
}

/// What is known at the start of a frame. The times are milliseconds since
/// the last refresh of each kind.
#[derive(Clone, Copy, Debug, PartialEq, Eq, Structural)]
pub struct Moment {
    pub focused: bool,
    pub tab: Tab,
    /// The package tools are there.
    pub pkg_ok: bool,
    pub since_fast: u64,
    pub since_disk: u64,
    pub since_proc: u64,
}

/// What a frame starts, and when the next one is due.
#[derive(Clone, Copy, Debug, PartialEq, Eq, Structural)]
pub struct Frame {
    pub fast: bool,
    pub disks: bool,
    pub procs: bool,
    pub check_updates: bool,
    pub gather_system: bool,
    pub load_apps: bool,
    /// Measure reclaimable space and list the kernels.
    pub scan_cleanup: bool,
    pub load_startup: bool,
    pub load_repos: bool,
    pub interval: u64,
}

/// The pause between frames.
pub open spec fn interval_of(focused: bool) -> u64 {
    if focused {
        REFRESH
    } else {
        IDLE_REFRESH
    }
}

/// What a frame starts.
pub open spec fn frame_of(k: Kicked, m: Moment) -> Frame {
    Frame {
        fast: m.since_fast >= interval_of(m.focused),
        disks: m.since_disk >= DISK_REFRESH,
        procs: m.focused && m.tab == Tab::Performance && m.since_proc >= PROC_REFRESH,
        check_updates: m.pkg_ok && !k.updates,
        gather_system: m.tab == Tab::SystemInfo && !k.system,
        load_apps: m.pkg_ok && m.tab == Tab::Apps && !k.apps,
        scan_cleanup: m.pkg_ok && m.tab == Tab::Cleanup && !k.cleanup,
        load_startup: m.tab == Tab::Startup && !k.startup,
        load_repos: m.pkg_ok && m.tab == Tab::Sources && !k.repos,
        interval: interval_of(m.focused),
    }
}

/// What has been started after a frame.
pub open spec fn kicked_after(k: Kicked, m: Moment) -> Kicked {
    let f = frame_of(k, m);
    Kicked {
        updates: k.updates || f.check_updates,
        system: k.system || f.gather_system,
        apps: k.apps || f.load_apps,
        cleanup: k.cleanup || f.scan_cleanup,
        startup: k.startup || f.load_startup,
        repos: k.repos || f.load_repos,
    }
}

impl Kicked {
    pub fn new() -> (r: Self)
        ensures
            r == (Kicked {
                updates: false,
                system: false,
                apps: false,
                cleanup: false,
                startup: false,
                repos: false,
            }),
    {
        Kicked {
            updates: false,
            system: false,
            apps: false,
            cleanup: false,
            startup: false,
            repos: false,
        }
    }

    /// Decides what a frame starts.
    pub fn frame(&mut self, m: Moment) -> (f: Frame)
        ensures
            f == frame_of(*old(self), m),
            *final(self) == kicked_after(*old(self), m),
    {
        let interval: u64 = if m.focused {
            REFRESH
        } else {
            IDLE_REFRESH
        };
        let f = Frame {
            fast: m.since_fast >= interval,
            disks: m.since_disk >= DISK_REFRESH,
            procs: m.focused && m.tab == Tab::Performance && m.since_proc >= PROC_REFRESH,
            check_updates: m.pkg_ok && !self.updates,
            gather_system: m.tab == Tab::SystemInfo && !self.system,
            load_apps: m.pkg_ok && m.tab == Tab::Apps && !self.apps,
            scan_cleanup: m.pkg_ok && m.tab == Tab::Cleanup && !self.cleanup,
            load_startup: m.tab == Tab::Startup && !self.startup,
            load_repos: m.pkg_ok && m.tab == Tab::Sources && !self.repos,
            interval,
        };
        self.updates = self.updates || f.check_updates;
        self.system = self.system || f.gather_system;
        self.apps = self.apps || f.load_apps;
        self.cleanup = self.cleanup || f.scan_cleanup;
        self.startup = self.startup || f.load_startup;
        self.repos = self.repos || f.load_repos;
        f
    }
}

/// Whatever comes after a frame, nothing that it started is started again.
pub proof fn law_started_once(k: Kicked, first: Moment, later: Moment)
    ensures
        ({
            let f = frame_of(k, first);
            let g = frame_of(kicked_after(k, first), later);
            &&& !(f.check_updates && g.check_updates)
            &&& !(f.gather_system && g.gather_system)
            &&& !(f.load_apps && g.load_apps)
            &&& !(f.scan_cleanup && g.scan_cleanup)
            &&& !(f.load_startup && g.load_startup)
            &&& !(f.load_repos && g.load_repos)
        }),
        ({
            let a = kicked_after(k, first);
            let b = kicked_after(a, later);
            &&& a.updates ==> b.updates
            &&& a.system ==> b.system
            &&& a.apps ==> b.apps
            &&& a.cleanup ==> b.cleanup
            &&& a.startup ==> b.startup
            &&& a.repos ==> b.repos
        }),
{
}

/// Without the package tools nothing that needs them is started.
pub proof fn law_tools_needed(k: Kicked, m: Moment)
    requires
        !m.pkg_ok,
    ensures
        !frame_of(k, m).check_updates,
        !frame_of(k, m).load_apps,
        !frame_of(k, m).scan_cleanup,
        !frame_of(k, m).load_repos,
{
}

// --- health -----------------------------------------------------------------

/// How something is coloured.
#[derive(Clone, Copy, Debug, PartialEq, Eq, Structural)]
pub enum Tone {
    Good,
    Warn,
    Bad,
    Muted,
}

/// What is known of the updates.
#[derive(Clone, Copy, Debug, PartialEq, Eq, Structural)]
pub struct UpdateFacts {
    /// Upgrades and refreshes together.
    pub count: usize,
    pub reboot_required: bool,
    pub checked: bool,
    pub failed: bool,
    pub checking: bool,
}

impl UpdateFacts {
    /// What a state says of the updates, unless the two counts together are
    /// too large to count.
    pub fn of(u: &Updates) -> (r: Option<Self>)
        ensures
            u.count + u.snap_count <= usize::MAX ==> r == Some(
                UpdateFacts {
                    count: (u.count + u.snap_count) as usize,
                    reboot_required: u.reboot_required,
                    checked: u.checked,
                    failed: u.check_failed,
                    checking: u.checking,
                },
            ),
            u.count + u.snap_count > usize::MAX ==> r is None,
    {
        match u.count.checked_add(u.snap_count) {
            Some(count) => Some(
                UpdateFacts {
                    count,
                    reboot_required: u.reboot_required,
                    checked: u.checked,
                    failed: u.check_failed,
                    checking: u.checking,
                },
            ),
            None => None,
        }
    }
}

/// Some disk is critically full.
pub open spec fn some_disk_critical(disks: Seq<DiskInfo>) -> bool {
    exists|i: int| 0 <= i < disks.len() && critically_full((#[trigger] disks[i]).used, disks[i].total)
}

/// Overall health; `critical` says that a disk or the memory is critically
/// full, and `pkg_ok` that the tools of an update check are there. A check that
/// failed, or that has not run where it could have, is no good news.
pub open spec fn health_of(critical: bool, pkg_ok: bool, u: UpdateFacts) -> (Tone, Seq<char>) {
    if critical {
        (Tone::Bad, "Attention needed"@)
    } else if u.reboot_required {
        (Tone::Warn, "Restart required"@)
    } else if u.checked && u.count > 0 {
        (Tone::Warn, decimal(u.count as nat) + " updates"@)
    } else if u.failed || (pkg_ok && !u.checked) {
        (Tone::Muted, "Can't check updates"@)
    } else {
        (Tone::Good, "Healthy"@)
    }
}

/// The overall state, shown in one pill.
pub struct Health {
    pub tone: Tone,
    pub label: String,
}

/// How much memory is used of how much.
#[derive(Clone, Copy, Debug, PartialEq, Eq, Structural)]
pub struct Memory {
    pub used: u64,
    pub total: u64,
}

fn critical_disk(disks: &[DiskInfo]) -> (r: bool)
    ensures
        r == some_disk_critical(disks@),
{
    let mut i: usize = 0;
    while i < disks.len()
        invariant
            i <= disks@.len(),
            forall|k: int|
                0 <= k < i ==> !critically_full((#[trigger] disks@[k]).used, disks@[k].total),
        decreases disks@.len() - i,
    {
        if is_critically_full(disks[i].used, disks[i].total) {
            assert(critically_full(disks@[i as int].used, disks@[i as int].total));
            return true;
        }
        i += 1;
    }
    false
}

impl Health {
    pub fn compute(disks: &[DiskInfo], memory: Memory, pkg_ok: bool, u: UpdateFacts) -> (r: Self)
        ensures
            (r.tone, r.label@) == health_of(
                some_disk_critical(disks@) || critically_full(memory.used, memory.total),
                pkg_ok,
                u,
            ),
    {
        if critical_disk(disks) || is_critically_full(memory.used, memory.total) {
            Health { tone: Tone::Bad, label: "Attention needed".to_owned() }
        } else if u.reboot_required {
            Health { tone: Tone::Warn, label: "Restart required".to_owned() }
        } else if u.checked && u.count > 0 {
            let mut label = show(u.count as u64);
            label.append(" updates");
            Health { tone: Tone::Warn, label }
        } else if u.failed || (pkg_ok && !u.checked) {
            Health { tone: Tone::Muted, label: "Can't check updates".to_owned() }
        } else {
            Health { tone: Tone::Good, label: "Healthy".to_owned() }
        }
    }
}

/// A system is called healthy exactly when nothing is critically full, no
/// restart is due, nothing is pending, and the check, where there is one to
/// make, has run and not failed.
pub proof fn law_health_is_honest(critical: bool, pkg_ok: bool, u: UpdateFacts)
    ensures
        health_of(critical, pkg_ok, u).1 == "Healthy"@ <==> {
            &&& !critical
            &&& !u.reboot_required
            &&& !(u.checked && u.count > 0)
            &&& !u.failed
            &&& pkg_ok ==> u.checked
        },
        health_of(critical, pkg_ok, u).1 == "Healthy"@ <==> health_of(critical, pkg_ok, u).0
            == Tone::Good,
{
    reveal_strlit("Attention needed");
    reveal_strlit("Restart required");
    reveal_strlit(" updates");
    reveal_strlit("Can't check updates");
    reveal_strlit("Healthy");
    assert("Healthy"@.len() == 7);
    assert("Attention needed"@.len() == 16 && "Restart required"@.len() == 16);
    assert("Can't check updates"@.len() == 19);
    assert((decimal(u.count as nat) + " updates"@).len() > 8);
}

/// Something that needs attention, and the tab where it can be dealt with.
pub struct Notice {
    pub tone: Tone,
    pub text: String,
    pub action: &'static str,
    pub target: Tab,
}

#[verifier::ext_equal]
pub struct NoticeView {
    pub tone: Tone,
    pub text: Seq<char>,
    pub action: Seq<char>,
    pub target: Tab,
}

impl View for Notice {
    type V = NoticeView;

    open spec fn view(&self) -> NoticeView {
        NoticeView {
            tone: self.tone,
            text: self.text@,
            action: self.action@,
            target: self.target,
        }
    }
}

/// What is said of the updates.
pub open spec fn update_notices(u: UpdateFacts) -> Seq<NoticeView> {
    (if u.checked && u.count > 0 {
        seq![
            NoticeView {
                tone: Tone::Warn,
                text: decimal(u.count as nat) + " update"@ + (if u.count == 1 {
                    ""@
                } else {
                    "s"@
                }) + " available"@,
                action: "Review"@,
                target: Tab::Updates,
            },
        ]
    } else {
        seq![]
    }) + (if u.checked && u.failed {
        seq![
            NoticeView {
                tone: Tone::Muted,
                text: "Couldn't check for updates"@,
                action: "Details"@,
                target: Tab::Updates,
            },
        ]
    } else {
        seq![]
    }) + (if u.reboot_required {
        seq![
            NoticeView {
                tone: Tone::Warn,
                text: "Restart required to finish updates"@,
                action: "Power"@,
                target: Tab::Updates,
            },
        ]
    } else {
        seq![]
    })
}

/// What is said of a disk, where it is nearly full.
pub open spec fn disk_notice(d: DiskInfo) -> Option<NoticeView> {
    if nearly_full(d.used, d.total) {
        Some(
            NoticeView {
                tone: tone_of(d.used, d.total),
                text: d.mount@ + " is "@ + decimal(percent_of(d.used, d.total)) + "% full"@,
                action: "Storage"@,
                target: Tab::Storage,
            },
        )
    } else {
        None
    }
}

/// What is said of the disks.
pub open spec fn disk_notices(disks: Seq<DiskInfo>) -> Seq<NoticeView> {
    kept(disks, |d: DiskInfo| disk_notice(d))
}

/// What is said of the memory.
pub open spec fn memory_notices(m: Memory) -> Seq<NoticeView> {
    if nearly_full(m.used, m.total) {
        seq![
            NoticeView {
                tone: tone_of(m.used, m.total),
                text: "Memory is "@ + decimal(percent_of(m.used, m.total)) + "% used"@,
                action: "Details"@,
                target: Tab::Performance,
            },
        ]
    } else {
        seq![]
    }
}

/// Everything that needs attention, in the order it is shown.
pub open spec fn notices_of(u: UpdateFacts, disks: Seq<DiskInfo>, memory: Memory) -> Seq<NoticeView> {
    update_notices(u) + disk_notices(disks) + memory_notices(memory)
}

/// Lists what needs attention.
pub fn attention(u: UpdateFacts, disks: &[DiskInfo], memory: Memory) -> (r: Vec<Notice>)
    ensures
        views(r@) == notices_of(u, disks@, memory),
{
    broadcast use lemma_views_push;

    let mut r: Vec<Notice> = Vec::new();
    assert(views(r@) =~= Seq::<NoticeView>::empty());
    if u.checked && u.count > 0 {
        let mut text = show(u.count as u64);
        text.append(" update");
        text.append(
            if u.count == 1 {
                ""
            } else {
                "s"
            },
        );
        text.append(" available");
        r.push(Notice { tone: Tone::Warn, text, action: "Review", target: Tab::Updates });
    }
    if u.checked && u.failed {
        r.push(
            Notice {
                tone: Tone::Muted,
                text: "Couldn't check for updates".to_owned(),
                action: "Details",
                target: Tab::Updates,
            },
        );
    }
    if u.reboot_required {
        r.push(
            Notice {
                tone: Tone::Warn,
                text: "Restart required to finish updates".to_owned(),
                action: "Power",
                target: Tab::Updates,
            },
        );
    }
    let ghost first = update_notices(u);
    assert(views(r@) =~= first);
    let ghost f = |d: DiskInfo| disk_notice(d);
    let mut i: usize = 0;
    assert(disks@.skip(0) =~= disks@);
    while i < disks.len()
        invariant
            i <= disks@.len(),
            f == (|d: DiskInfo| disk_notice(d)),
            views(r@) + kept(disks@.skip(i as int), f) == first + kept(disks@, f),
        decreases disks@.len() - i,
    {
        let d = &disks[i];
        proof {
            lemma_kept_step(views(r@), disks@, i as int, f);
        }
        if is_nearly_full(d.used, d.total) {
            let mut text = d.mount.as_str().to_owned();
            text.append(" is ");
            let p = percent(d.used, d.total);
            text.append(p.as_str());
            text.append("% full");
            let tone = usage_tone(d.used, d.total);
            let n = Notice { tone, text, action: "Storage", target: Tab::Storage };
            assert(Some(n@) == disk_notice(disks@[i as int]));
            r.push(n);
        }
        i += 1;
    }
    proof {
        lemma_kept_ends(views(r@), disks@, f);
    }
    if is_nearly_full(memory.used, memory.total) {
        let mut text = "Memory is ".to_owned();
        let p = percent(memory.used, memory.total);
        text.append(p.as_str());
        text.append("% used");
        let tone = usage_tone(memory.used, memory.total);
        r.push(Notice { tone, text, action: "Details", target: Tab::Performance });
    }
    assert(views(r@) =~= notices_of(u, disks@, memory));
    r
}

/// Whether a list without notices means that the system is still being
/// checked, and not that all is well.
pub fn still_checking(pkg_ok: bool, u: UpdateFacts) -> (r: bool)
    ensures
        r == (pkg_ok && (u.checking || !u.checked)),
{
    pkg_ok && (u.checking || !u.checked)
}

proof fn lemma_disk_notices(disks: Seq<DiskInfo>)
    ensures
        disk_notices(disks).len() > 0 <==> exists|i: int|
            0 <= i < disks.len() && nearly_full((#[trigger] disks[i]).used, disks[i].total),
    decreases disks.len(),
{
    if disks.len() > 0 {
        let rest = disks.skip(1);
        lemma_disk_notices(rest);
        if nearly_full(disks[0].used, disks[0].total) {
            assert(disk_notices(disks).len() > 0);
        } else if disk_notices(rest).len() > 0 {
            let i = choose|i: int|
                0 <= i < rest.len() && nearly_full((#[trigger] rest[i]).used, rest[i].total);
            assert(nearly_full(disks[i + 1].used, disks[i + 1].total));
        } else {
            assert forall|i: int| 0 <= i < disks.len() implies !nearly_full(
                (#[trigger] disks[i]).used,
                disks[i].total,
            ) by {
                if i > 0 {
                    assert(rest[i - 1] == disks[i]);
                }
            }
        }
    }
}

/// Something is listed exactly when a check failed, updates wait, a restart is
/// due, or a disk or the memory is nearly full.
pub proof fn law_attention_is_honest(u: UpdateFacts, disks: Seq<DiskInfo>, memory: Memory)
    ensures
        notices_of(u, disks, memory).len() > 0 <==> {
            ||| u.checked && (u.failed || u.count > 0)
            ||| u.reboot_required
            ||| exists|i: int|
                0 <= i < disks.len() && nearly_full((#[trigger] disks[i]).used, disks[i].total)
            ||| nearly_full(memory.used, memory.total)
        },
{
    lemma_disk_notices(disks);
}

/// Where the pill says that attention is needed, something is listed.
pub proof fn law_critical_is_listed(u: UpdateFacts, disks: Seq<DiskInfo>, memory: Memory)
    requires
        some_disk_critical(disks) || critically_full(memory.used, memory.total),
    ensures
        notices_of(u, disks, memory).len() > 0,
{
    law_attention_is_honest(u, disks, memory);
    law_levels_rise(memory.used, memory.total);
    if some_disk_critical(disks) {
        let i = choose|i: int|
            0 <= i < disks.len() && critically_full((#[trigger] disks[i]).used, disks[i].total);
        law_levels_rise(disks[i].used, disks[i].total);
        assert(nearly_full(disks[i].used, disks[i].total));
    }
}

// --- the command palette ----------------------------------------------------

/// What a command does.
#[derive(Clone, Copy, Debug, PartialEq, Eq, Structural)]
pub enum PaletteAction {
    GoTo(Tab),
    ToggleTheme,
}

/// A command: its group, its label and what it does.
#[derive(Clone, Copy)]
pub struct Command {
    pub group: &'static str,
    pub label: &'static str,
    pub action: PaletteAction,
}

#[verifier::ext_equal]
pub struct CommandView {
    pub group: Seq<char>,
    pub label: Seq<char>,
    pub action: PaletteAction,
}

impl View for Command {
    type V = CommandView;

    open spec fn view(&self) -> CommandView {
        CommandView { group: self.group@, label: self.label@, action: self.action }
    }
}

/// A command that opens a tab.
pub open spec fn go_to(label: Seq<char>, tab: Tab) -> CommandView {
    CommandView { group: "GO TO"@, label, action: PaletteAction::GoTo(tab) }
}

/// Every command.
pub open spec fn all_commands() -> Seq<CommandView> {
    seq![
        go_to("Overview"@, Tab::Overview),
        go_to("Performance"@, Tab::Performance),
        go_to("Storage"@, Tab::Storage),
        go_to("Apps"@, Tab::Apps),
        go_to("Cleanup"@, Tab::Cleanup),
        go_to("Startup & Services"@, Tab::Startup),
        go_to("Sources"@, Tab::Sources),
        go_to("System Info"@, Tab::SystemInfo),
        go_to("Updates"@, Tab::Updates),
        CommandView {
            group: "THEME"@,
            label: "Toggle light / dark"@,
            action: PaletteAction::ToggleTheme,
        },
    ]
}

fn open_tab(label: &'static str, tab: Tab) -> (r: Command)
    ensures
        r@ == go_to(label@, tab),
{
    Command { group: "GO TO", label, action: PaletteAction::GoTo(tab) }
}

pub fn commands() -> (r: Vec<Command>)
    ensures
        views(r@) == all_commands(),
{
    let mut r: Vec<Command> = Vec::new();
    r.push(open_tab("Overview", Tab::Overview));
    r.push(open_tab("Performance", Tab::Performance));
    r.push(open_tab("Storage", Tab::Storage));
    r.push(open_tab("Apps", Tab::Apps));
    r.push(open_tab("Cleanup", Tab::Cleanup));
    r.push(open_tab("Startup & Services", Tab::Startup));
    r.push(open_tab("Sources", Tab::Sources));
    r.push(open_tab("System Info", Tab::SystemInfo));
    r.push(open_tab("Updates", Tab::Updates));
    r.push(
        Command {
            group: "THEME",
            label: "Toggle light / dark",
            action: PaletteAction::ToggleTheme,
        },
    );
    assert(views(r@) =~= all_commands());
    r
}

/// The positions of the commands whose labels match a lowercase query.
pub fn filter_commands_lower(q: &str) -> (r: Vec<usize>)
    ensures
        places(r@) == indices(
            all_commands().len(),
            |i: int| text_matches(all_commands()[i].label, q@),
        ),
{
    let all = commands();
    let ghost vs = all_commands();
    let ghost p = |i: int| text_matches(vs[i].label, q@);
    let mut r: Vec<usize> = Vec::new();
    let mut i: usize = 0;
    assert(places(r@) =~= indices(0, p));
    while i < all.len()
        invariant
            i <= all@.len(),
            vs == all_commands(),
            views(all@) == vs,
            p == (|i: int| text_matches(vs[i].label, q@)),
            places(r@) == indices(i as nat, p),
        decreases all@.len() - i,
    {
        assert(vs[i as int] == all@[i as int]@);
        if matches_lower(all[i].label, q) {
            let ghost before = r@;
            r.push(i);
            assert(places(r@) =~= places(before).push(i as int));
        }
        i += 1;
    }
    r
}

/// The positions of the commands whose labels match a query.
pub fn filter_commands(query: &str) -> (r: Vec<usize>)
    ensures
        places(r@) == indices(
            all_commands().len(),
            |i: int| text_matches(all_commands()[i].label, lowercase(query@)),
        ),
{
    let q = query.to_lowercase();
    filter_commands_lower(q.as_str())
}

/// Where the highlight stands after the arrow keys, in a list of `n`.
pub open spec fn highlight_of(at: nat, n: nat, up: bool, down: bool) -> nat {
    if n == 0 {
        0
    } else {
        let lower = if down {
            (at + 1) % n
        } else {
            at
        };
        let moved = if up {
            ((lower + n - 1) % n as int) as nat
        } else {
            lower
        };
        if moved < n {
            moved
        } else {
            (n - 1) as nat
        }
    }
}

/// Moves the highlight; it wraps round at both ends.
pub fn move_highlight(at: usize, n: usize, up: bool, down: bool) -> (r: usize)
    ensures
        r == highlight_of(at as nat, n as nat, up, down),
{
    if n == 0 {
        return 0;
    }
    let wide = n as u128;
    let mut k = at as u128;
    if down {
        k = (k + 1) % wide;
    }
    if up {
        k = (k + wide - 1) % wide;
    }
    if k < wide {
        k as usize
    } else {
        n - 1
    }
}

/// The command palette: whether it is open, what was typed into it, and where
/// its highlight stands.
pub struct CommandBox {
    pub open: bool,
    pub query: String,
    pub at: usize,
}

#[verifier::ext_equal]
pub struct CommandBoxView {
    pub open: bool,
    pub query: Seq<char>,
    pub at: nat,
}

impl View for CommandBox {
    type V = CommandBoxView;

    open spec fn view(&self) -> CommandBoxView {
        CommandBoxView { open: self.open, query: self.query@, at: self.at as nat }
    }
}

/// An empty palette.
pub open spec fn fresh_box(open: bool) -> CommandBoxView {
    CommandBoxView { open, query: Seq::empty(), at: 0 }
}

impl CommandBox {
    pub fn new() -> (r: Self)
        ensures
            r@ == fresh_box(false),
    {
        CommandBox { open: false, query: String::new(), at: 0 }
    }

    /// Opens the palette, emptied.
    pub fn show(&mut self)
        ensures
            final(self)@ == fresh_box(true),
    {
        self.open = true;
        self.query = String::new();
        self.at = 0;
    }

    /// Opens the palette or closes it; either way it is emptied.
    pub fn toggle(&mut self)
        ensures
            final(self)@ == fresh_box(!old(self)@.open),
    {
        self.open = !self.open;
        self.query = String::new();
        self.at = 0;
    }

    /// Takes the keys of a frame while `n` commands are listed. Escape closes
    /// the palette and leaves the rest as it is.
    pub fn keys(&mut self, n: usize, escape: bool, up: bool, down: bool)
        ensures
            final(self)@ == (if escape {
                CommandBoxView { open: false, ..old(self)@ }
            } else {
                CommandBoxView {
                    at: highlight_of(old(self)@.at, n as nat, up, down),
                    ..old(self)@
                }
            }),
    {
        if escape {
            self.open = false;
        } else {
            self.at = move_highlight(self.at, n, up, down);
        }
    }

    pub fn close(&mut self)
        ensures
            final(self)@ == (CommandBoxView { open: false, ..old(self)@ }),
    {
        self.open = false;
    }
}

/// The highlight always stands on a command, and one step down undoes one
/// step up.
pub proof fn law_highlight(at: nat, n: nat, up: bool, down: bool)
    requires
        n > 0,
    ensures
        highlight_of(at, n, up, down) < n,
        at < n ==> highlight_of(highlight_of(at, n, true, false), n, false, true) == at,
{
    if at < n {
        if at == 0 {
            assert((at + n - 1) % n as int == n - 1) by (nonlinear_arith)
                requires
                    at == 0,
                    n > 0,
            ;
            assert(n % n == 0) by (nonlinear_arith)
                requires
                    n > 0,
            ;
        } else {
            assert((at + n - 1) % n as int == at - 1) by (nonlinear_arith)
                requires
                    0 < at < n,
            ;
            assert(at % n == at) by (nonlinear_arith)
                requires
                    at < n,
            ;
        }
    }
}

// --- notices that pass ------------------------------------------------------

/// How many passing notices are shown at once.
pub const TOAST_CAP: usize = 4;

/// Adds a passing notice; beyond the cap the oldest gives way.
pub fn push_toast<T>(toasts: &mut Vec<T>, toast: T)
    ensures
        final(toasts)@ == (if old(toasts)@.len() >= TOAST_CAP {
            old(toasts)@.push(toast).skip(1)
        } else {
            old(toasts)@.push(toast)
        }),
{
    toasts.push(toast);
    if toasts.len() > TOAST_CAP {
        toasts.remove(0);
        assert(toasts@ =~= old(toasts)@.push(toast).skip(1));
    }
}

// --- the first run ----------------------------------------------------------

/// Where the first run is noted: below the configuration directory, or the
/// one in the home directory.
pub open spec fn welcome_path_of(config: Option<Seq<char>>, home: Option<Seq<char>>) -> Option<
    Seq<char>,
> {
    let base = match config {
        Some(c) => if c.len() > 0 {
            Some(c)
        } else {
            match home {
                Some(h) => Some(h + "/.config"@),
                None => None,
            }
        },
        None => match home {
            Some(h) => Some(h + "/.config"@),
            None => None,
        },
    };
    match base {
        Some(b) => Some(path_in(path_in(b, "upulse"@), "welcomed"@)),
        None => None,
    }
}

pub fn welcome_flag_path(config: &Option<String>, home: &Option<String>) -> (r: Option<String>)
    ensures
        opt(r) == welcome_path_of(opt(*config), opt(*home)),
{
    let mut base: Option<String> = None;
    if let Some(c) = config {
        if to_chars(c.as_str()).len() > 0 {
            base = Some(c.clone());
        }
    }
    if base.is_none() {
        if let Some(h) = home {
            let mut b = h.clone();
            b.append("/.config");
            base = Some(b);
        }
    }
    match base {
        Some(b) => {
            let dir = join_path(b.as_str(), "upulse");
            Some(join_path(dir.as_str(), "welcomed"))
        },
        None => None,
    }
}

/// Whether the first run is over, given whether the note exists; where that
/// cannot be told, it is.
pub fn welcome_seen(exists: Option<bool>) -> (r: bool)
    ensures
        r == (exists != Some(false)),
{
    match exists {
        Some(e) => e,
        None => true,
    }
}

// --- sensors ----------------------------------------------------------------

/// How a battery with so many per cent left is coloured.
pub fn battery_tone(percent: u8) -> (r: Tone)
    ensures
        r == (if percent >= 50 {
            Tone::Good
        } else if percent >= 20 {
            Tone::Warn
        } else {
            Tone::Bad
        }),
{
    if percent >= 50 {
        Tone::Good
    } else if percent >= 20 {
        Tone::Warn
    } else {
        Tone::Bad
    }
}

/// How a temperature in thousandths of a degree is coloured.
pub fn heat_tone(milli: i64) -> (r: Tone)
    ensures
        r == (if milli < 60_000 {
            Tone::Good
        } else if milli < 80_000 {
            Tone::Warn
        } else {
            Tone::Bad
        }),
{
    if milli < 60_000 {
        Tone::Good
    } else if milli < 80_000 {
        Tone::Warn
    } else {
        Tone::Bad
    }
}

// --- the process table ------------------------------------------------------

/// How the process table is sorted.
#[derive(Clone, Copy, Debug, PartialEq, Eq, Structural)]
pub enum Sort {
    Cpu,
    Mem,
    Name,
    Pid,
}

/// How many processes are shown.
pub const SHOWN_PROCS: usize = 400;

/// A process as the table sorts it. `cpu` rises with its load.
pub struct ProcKey {
    pub pid: u32,
    pub name: String,
    pub cpu: u32,
    pub mem: u64,
}

#[verifier::ext_equal]
pub struct ProcKeyView {
    pub pid: u32,
    pub name: Seq<char>,
    pub cpu: u32,
    pub mem: u64,
}

impl View for ProcKey {
    type V = ProcKeyView;

    open spec fn view(&self) -> ProcKeyView {
        ProcKeyView { pid: self.pid, name: self.name@, cpu: self.cpu, mem: self.mem }
    }
}

/// A row of the table: its place in the listing, and what it is sorted by.
pub struct ProcRow {
    pub place: usize,
    /// Rows with smaller numbers come first.
    pub rank: u64,
    /// Then rows with smaller texts.
    pub text: Vec<char>,
}

#[verifier::ext_equal]
pub struct ProcRowView {
    pub place: int,
    pub rank: u64,
    pub text: Seq<char>,
}

impl View for ProcRow {
    type V = ProcRowView;

    open spec fn view(&self) -> ProcRowView {
        ProcRowView { place: self.place as int, rank: self.rank, text: self.text@ }
    }
}

impl Ranked for ProcRow {
    open spec fn precedes(a: ProcRowView, b: ProcRowView) -> bool {
        a.rank < b.rank || (a.rank == b.rank && text_lt(a.text, b.text))
    }

    fn before(&self, other: &Self) -> (r: bool) {
        self.rank < other.rank || (self.rank == other.rank && text_less(&self.text, &other.text))
    }

    proof fn law_precedes(a: ProcRowView, b: ProcRowView, c: ProcRowView) {
        law_text_order(a.text, b.text, c.text);
        law_text_order(b.text, a.text, c.text);
    }
}

/// What a process is sorted by: high load or much memory first, names and
/// numbers rising.
pub open spec fn row_for(p: ProcKeyView, place: int, sort: Sort) -> ProcRowView {
    ProcRowView {
        place,
        rank: match sort {
            Sort::Cpu => (u32::MAX - p.cpu) as u64,
            Sort::Mem => (u64::MAX - p.mem) as u64,
            Sort::Name => 0,
            Sort::Pid => p.pid as u64,
        },
        text: match sort {
            Sort::Name => lowercase(p.name),
            _ => Seq::empty(),
        },
    }
}

/// The rows of the processes that match, before they are sorted.
pub open spec fn proc_rows(procs: Seq<ProcKeyView>, needle: Seq<char>, sort: Sort) -> Seq<
    ProcRowView,
> {
    indices(procs.len(), |i: int| text_matches(procs[i].name, needle)).map_values(
        |i: int| row_for(procs[i], i, sort),
    )
}

/// The places of the processes that match, sorted.
pub open spec fn proc_order(procs: Seq<ProcKeyView>, needle: Seq<char>, sort: Sort) -> Seq<int> {
    sorted_by(proc_rows(procs, needle, sort), order_of::<ProcRow>()).map_values(
        |r: ProcRowView| r.place,
    )
}

fn make_row(p: &ProcKey, place: usize, sort: Sort) -> (r: ProcRow)
    ensures
        r@ == row_for(p@, place as int, sort),
{
    let rank: u64 = match sort {
        Sort::Cpu => (u32::MAX - p.cpu) as u64,
        Sort::Mem => u64::MAX - p.mem,
        Sort::Name => 0,
        Sort::Pid => p.pid as u64,
    };
    let text: Vec<char> = if sort == Sort::Name {
        let lower = p.name.as_str().to_lowercase();
        to_chars(lower.as_str())
    } else {
        Vec::new()
    };
    let r = ProcRow { place, rank, text };
    assert(r@ =~= row_for(p@, place as int, sort));
    r
}

/// The order of the process table for a lowercase needle.
pub fn order_procs_lower(procs: &[ProcKey], needle: &str, sort: Sort) -> (r: Vec<usize>)
    ensures
        places(r@) == proc_order(views(procs@), needle@, sort),
{
    broadcast use lemma_views_push;

    let ghost vs = views(procs@);
    let ghost p = |i: int| text_matches(vs[i].name, needle@);
    let ghost f = |i: int| row_for(vs[i], i, sort);
    let mut found: Vec<ProcRow> = Vec::new();
    let mut i: usize = 0;
    assert(views(found@) =~= indices(0, p).map_values(f));
    while i < procs.len()
        invariant
            i <= procs@.len(),
            vs == views(procs@),
            p == (|i: int| text_matches(vs[i].name, needle@)),
            f == (|i: int| row_for(vs[i], i, sort)),
            views(found@) == indices(i as nat, p).map_values(f),
        decreases procs@.len() - i,
    {
        assert(vs[i as int] == procs@[i as int]@);
        if matches_lower(procs[i].name.as_str(), needle) {
            found.push(make_row(&procs[i], i, sort));
            assert(indices((i + 1) as nat, p).map_values(f) =~= indices(i as nat, p).map_values(
                f,
            ).push(f(i as int)));
        }
        i += 1;
    }
    let sorted = stable_sort(found);
    let ghost all = proc_order(vs, needle@, sort);
    let mut r: Vec<usize> = Vec::new();
    let mut k: usize = 0;
    assert(places(r@) =~= all.take(0));
    while k < sorted.len()
        invariant
            k <= sorted@.len(),
            all == views(sorted@).map_values(|r: ProcRowView| r.place),
            places(r@) == all.take(k as int),
        decreases sorted@.len() - k,
    {
        let ghost before = r@;
        assert(all[k as int] == sorted@[k as int].place as int);
        r.push(sorted[k].place);
        k += 1;
        assert(places(r@) =~= places(before).push(all[k as int - 1]));
        assert(all.take(k as int) =~= all.take(k as int - 1).push(all[k as int - 1]));
    }
    assert(all.take(k as int) =~= all);
    r
}

/// The order of the process table.
pub fn order_procs(procs: &[ProcKey], filter: &str, sort: Sort) -> (r: Vec<usize>)
    ensures
        places(r@) == proc_order(views(procs@), lowercase(filter@), sort),
{
    let needle = filter.to_lowercase();
    order_procs_lower(procs, needle.as_str(), sort)
}

/// What is said below a table that does not show all of `n` processes.
pub open spec fn more_procs_of(n: nat) -> Option<Seq<char>> {
    if n > SHOWN_PROCS {
        Some("Showing the top 400 of "@ + decimal(n) + " processes"@)
    } else {
        None
    }
}

pub fn more_procs(n: usize) -> (r: Option<String>)
    ensures
        opt(r) == more_procs_of(n as nat),
{
    if n > SHOWN_PROCS {
        let mut s = "Showing the top 400 of ".to_owned();
        let k = show(n as u64);
        s.append(k.as_str());
        s.append(" processes");
        Some(s)
    } else {
        None
    }
}

/// The name of the process that is selected.
pub open spec fn name_of(procs: Seq<ProcKeyView>, pid: u32) -> Seq<char>
    decreases procs.len(),
{
    if procs.len() == 0 {
        "(gone)"@
    } else if procs[0].pid == pid {
        procs[0].name
    } else {
        name_of(procs.skip(1), pid)
    }
}

/// What is said of the process that is selected.
pub fn selected_line(procs: &[ProcKey], pid: u32) -> (r: String)
    ensures
        r@ == "Selected: "@ + name_of(views(procs@), pid) + "  ·  PID "@ + decimal(pid as nat),
{
    let ghost vs = views(procs@);
    let mut s = "Selected: ".to_owned();
    let mut i: usize = 0;
    assert(vs.skip(0) =~= vs);
    while i < procs.len() && procs[i].pid != pid
        invariant
            i <= procs@.len(),
            vs == views(procs@),
            name_of(vs, pid) == name_of(vs.skip(i as int), pid),
        decreases procs@.len() - i,
    {
        assert(vs.skip(i as int)[0] == procs@[i as int]@);
        assert(vs.skip(i as int).skip(1) =~= vs.skip(i as int + 1));
        i += 1;
    }
    if i < procs.len() {
        assert(vs.skip(i as int)[0] == procs@[i as int]@);
        s.append(procs[i].name.as_str());
    } else {
        s.append("(gone)");
    }
    s.append("  ·  PID ");
    let k = show(pid as u64);
    s.append(k.as_str());
    s
}

/// The process that is selected, and the one whose end waits for a second
/// click.
#[derive(Clone, Copy, Debug, PartialEq, Eq, Structural)]
pub struct ProcPick {
    pub selected: Option<u32>,
    pub armed: Option<u32>,
}

impl ProcPick {
    pub fn new() -> (r: Self)
        ensures
            r == (ProcPick { selected: None, armed: None }),
    {
        ProcPick { selected: None, armed: None }
    }

    /// A click on a row selects it, or takes the selection back.
    pub fn click_row(&mut self, pid: u32)
        ensures
            final(self).selected == (if old(self).selected == Some(pid) {
                None
            } else {
                Some(pid)
            }),
            final(self).armed == None::<u32>,
    {
        let on = match self.selected {
            Some(s) => s == pid,
            None => false,
        };
        self.selected = if on {
            None
        } else {
            Some(pid)
        };
        self.armed = None;
    }

    /// Whether the end of the selected process waits for the second click.
    pub fn is_armed(&self) -> (r: bool)
        ensures
            r == (self.selected is Some && self.armed == self.selected),
    {
        match (self.selected, self.armed) {
            (Some(s), Some(a)) => s == a,
            _ => false,
        }
    }

    /// A click on the button that ends the selected process: the first arms
    /// it, and the second returns the process to end.
    pub fn click_end(&mut self) -> (r: Option<u32>)
        ensures
            final(self).selected == old(self).selected,
            old(self).selected is Some && old(self).armed == old(self).selected ==> r == old(
                self,
            ).selected && final(self).armed == None::<u32>,
            old(self).selected is Some && old(self).armed != old(self).selected ==> r
                == None::<u32> && final(self).armed == old(self).selected,
            old(self).selected is None ==> r == None::<u32> && final(self).armed == old(self).armed,
    {
        if self.is_armed() {
            self.armed = None;
            return self.selected;
        }
        if self.selected.is_some() {
            self.armed = self.selected;
        }
        None
    }

    pub fn cancel(&mut self)
        ensures
            *final(self) == (ProcPick { armed: None, ..*old(self) }),
    {
        self.armed = None;
    }

    pub fn clear(&mut self)
        ensures
            *final(self) == (ProcPick { selected: None, armed: None }),
    {
        self.selected = None;
        self.armed = None;
    }

    /// Takes note whether the signal was delivered. A process that could not
    /// be signalled stays selected.
    pub fn signalled(&mut self, delivered: bool)
        ensures
            *final(self) == (if delivered {
                ProcPick { selected: None, armed: None }
            } else {
                *old(self)
            }),
    {
        if delivered {
            self.selected = None;
            self.armed = None;
        }
    }
}

/// The table lists exactly the processes that match, each once.
pub proof fn law_process_table(procs: Seq<ProcKeyView>, needle: Seq<char>, sort: Sort)
    ensures
        proc_order(procs, needle, sort).to_multiset() == indices(
            procs.len(),
            |i: int| text_matches(procs[i].name, needle),
        ).to_multiset(),
{
    let rows = proc_rows(procs, needle, sort);
    let lt = order_of::<ProcRow>();
    let s = sorted_by(rows, lt);
    let g = |r: ProcRowView| r.place;
    law_sort_keeps_items(rows, lt);
    lemma_map_multiset(s, rows, g);
    let at = indices(procs.len(), |i: int| text_matches(procs[i].name, needle));
    assert(rows.map_values(g) =~= at);
}

/// The table is in the order asked for: falling load or memory, or rising
/// names or numbers.
pub proof fn law_process_order(procs: Seq<ProcKeyView>, needle: Seq<char>, sort: Sort)
    ensures
        ({
            let t = proc_order(procs, needle, sort);
            forall|i: int, j: int|
                0 <= i < j < t.len() ==> (match sort {
                    Sort::Cpu => procs[#[trigger] t[i]].cpu >= procs[#[trigger] t[j]].cpu,
                    Sort::Mem => procs[t[i]].mem >= procs[t[j]].mem,
                    Sort::Name => !text_lt(lowercase(procs[t[j]].name), lowercase(procs[t[i]].name)),
                    Sort::Pid => procs[t[i]].pid <= procs[t[j]].pid,
                })
        }),
{
    let rows = proc_rows(procs, needle, sort);
    let lt = order_of::<ProcRow>();
    let s = sorted_by(rows, lt);
    let t = proc_order(procs, needle, sort);
    let at = indices(procs.len(), |i: int| text_matches(procs[i].name, needle));
    law_ranked_sort::<ProcRow>(rows);
    law_sort_same_items(rows, lt);
    assert forall|i: int| 0 <= i < s.len() implies s[i] == row_for(
        procs[#[trigger] t[i]],
        t[i],
        sort,
    ) by {
        let k = choose|k: int| 0 <= k < rows.len() && rows[k] == s[i];
        assert(rows[k] == row_for(procs[at[k]], at[k], sort));
        assert(t[i] == s[i].place);
    }
    assert forall|i: int, j: int| 0 <= i < j < t.len() implies (match sort {
        Sort::Cpu => procs[#[trigger] t[i]].cpu >= procs[#[trigger] t[j]].cpu,
        Sort::Mem => procs[t[i]].mem >= procs[t[j]].mem,
        Sort::Name => !text_lt(lowercase(procs[t[j]].name), lowercase(procs[t[i]].name)),
        Sort::Pid => procs[t[i]].pid <= procs[t[j]].pid,
    }) by {
        assert(!lt(s[j], s[i]));
        assert(!ProcRow::precedes(s[j], s[i]));
    }
}

/// Mapping keeps two orders of the same items the same items.
proof fn lemma_map_multiset<A, B>(a: Seq<A>, b: Seq<A>, g: spec_fn(A) -> B)
    requires
        a.to_multiset() == b.to_multiset(),
    ensures
        a.map_values(g).to_multiset() == b.map_values(g).to_multiset(),
    decreases a.len(),
{
    broadcast use vstd::seq_lib::group_to_multiset_ensures;

    assert(a.len() == a.to_multiset().len());
    assert(b.len() == b.to_multiset().len());
    if a.len() > 0 {
        let x = a.last();
        assert(a.contains(x));
        assert(b.to_multiset().contains(x));
        assert(b.contains(x));
        let k = choose|k: int| 0 <= k < b.len() && b[k] == x;
        let ra = a.drop_last();
        let rb = b.remove(k);
        assert(a =~= ra.push(x));
        assert(ra.to_multiset() =~= a.to_multiset().remove(x));
        assert(rb.to_multiset() =~= b.to_multiset().remove(x));
        lemma_map_multiset(ra, rb, g);
        assert(a.map_values(g) =~= ra.map_values(g).push(g(x)));
        assert(b.map_values(g).remove(k) =~= rb.map_values(g));
        assert(b.map_values(g)[k] == g(x));
        assert(b.map_values(g).to_multiset() =~= rb.map_values(g).to_multiset().insert(g(x)));
    } else {
        assert(a.map_values(g) =~= b.map_values(g));
    }
}

// --- what the window must satisfy -------------------------------------------

/// A thin space stands behind each letter of a caption.
pub proof fn law_caption(label: Seq<char>, i: int)
    ensures
        spaced(label).len() == 2 * label.len(),
        0 <= i < label.len() ==> spaced(label)[2 * i] == label[i] && spaced(label)[2 * i + 1]
            == '\u{2009}',
    decreases label.len(),
{
    if label.len() > 0 {
        law_caption(label.drop_last(), i);
    }
}

/// The tabs that need the package tools, and what they are for.
pub proof fn law_features(tab: Tab)
    ensures
        feature_name(Tab::Apps) == Some("App management"@),
        feature_name(Tab::Cleanup) == Some("Cleanup"@),
        feature_name(Tab::Sources) == Some("Repositories"@),
        feature_name(Tab::Updates) == Some("System updates"@),
        feature_name(tab) is Some <==> tab == Tab::Apps || tab == Tab::Cleanup || tab
            == Tab::Sources || tab == Tab::Updates,
{
}

/// What a frame starts: figures every second, or every three where the window
/// is not in front, disks every eight, processes every two where they are
/// seen, and each reading once, when its tab is first opened.
pub proof fn law_frame(k: Kicked, m: Moment)
    ensures
        ({
            let f = frame_of(k, m);
            let a = kicked_after(k, m);
            &&& m.focused ==> f.interval == 1_000 && (f.fast <==> m.since_fast >= 1_000)
            &&& !m.focused ==> f.interval == 3_000 && (f.fast <==> m.since_fast >= 3_000)
            &&& f.disks <==> m.since_disk >= 8_000
            &&& f.procs <==> m.focused && m.tab == Tab::Performance && m.since_proc >= 2_000
            &&& f.check_updates <==> m.pkg_ok && !k.updates
            &&& f.gather_system <==> m.tab == Tab::SystemInfo && !k.system
            &&& f.load_apps <==> m.pkg_ok && m.tab == Tab::Apps && !k.apps
            &&& f.scan_cleanup <==> m.pkg_ok && m.tab == Tab::Cleanup && !k.cleanup
            &&& f.load_startup <==> m.tab == Tab::Startup && !k.startup
            &&& f.load_repos <==> m.pkg_ok && m.tab == Tab::Sources && !k.repos
            &&& a.updates <==> k.updates || f.check_updates
            &&& a.system <==> k.system || f.gather_system
            &&& a.apps <==> k.apps || f.load_apps
            &&& a.cleanup <==> k.cleanup || f.scan_cleanup
            &&& a.startup <==> k.startup || f.load_startup
            &&& a.repos <==> k.repos || f.load_repos
        }),
{
}

/// What the pill says, the gravest first.
pub proof fn law_health(critical: bool, pkg_ok: bool, u: UpdateFacts)
    ensures
        critical ==> health_of(critical, pkg_ok, u) == (Tone::Bad, "Attention needed"@),
        !critical && u.reboot_required ==> health_of(critical, pkg_ok, u) == (
            Tone::Warn,
            "Restart required"@,
        ),
        !critical && !u.reboot_required && u.checked && u.count > 0 ==> health_of(
            critical,
            pkg_ok,
            u,
        ) == (Tone::Warn, decimal(u.count as nat) + " updates"@),
        !critical && !u.reboot_required && !(u.checked && u.count > 0) && (u.failed || (pkg_ok
            && !u.checked)) ==> health_of(critical, pkg_ok, u) == (
            Tone::Muted,
            "Can't check updates"@,
        ),
        !critical && !u.reboot_required && !(u.checked && u.count > 0) && !u.failed && (!pkg_ok
            || u.checked) ==> health_of(critical, pkg_ok, u) == (Tone::Good, "Healthy"@),
{
}

/// Any disk alone can make the system critical, and only a disk that is
/// critically full does.
pub proof fn law_some_disk(disks: Seq<DiskInfo>, i: int)
    ensures
        0 <= i < disks.len() && critically_full(disks[i].used, disks[i].total)
            ==> some_disk_critical(disks),
        (forall|k: int|
            0 <= k < disks.len() ==> !critically_full((#[trigger] disks[k]).used, disks[k].total))
            ==> !some_disk_critical(disks),
{
}

/// What is said of pending updates, of a failed check and of a restart.
pub proof fn law_update_notices(u: UpdateFacts)
    ensures
        ({
            let pending = NoticeView {
                tone: Tone::Warn,
                text: if u.count == 1 {
                    decimal(1) + " update"@ + " available"@
                } else {
                    decimal(u.count as nat) + " update"@ + "s"@ + " available"@
                },
                action: "Review"@,
                target: Tab::Updates,
            };
            let failed = NoticeView {
                tone: Tone::Muted,
                text: "Couldn't check for updates"@,
                action: "Details"@,
                target: Tab::Updates,
            };
            let restart = NoticeView {
                tone: Tone::Warn,
                text: "Restart required to finish updates"@,
                action: "Power"@,
                target: Tab::Updates,
            };
            let n = update_notices(u);
            &&& n.contains(pending) <==> u.checked && u.count > 0
            &&& n.contains(failed) <==> u.checked && u.failed
            &&& n.contains(restart) <==> u.reboot_required
            &&& n.len() == (if u.checked && u.count > 0 {
                1int
            } else {
                0
            }) + (if u.checked && u.failed {
                1int
            } else {
                0
            }) + (if u.reboot_required {
                1int
            } else {
                0
            })
        }),
{
    reveal_strlit("");
    reveal_strlit("Review");
    reveal_strlit("Details");
    reveal_strlit("Power");
    assert("Review"@.len() == 6 && "Details"@.len() == 7 && "Power"@.len() == 5);
    assert(decimal(1) + " update"@ + ""@ + " available"@ =~= decimal(1) + " update"@
        + " available"@);
    let n = update_notices(u);
    let a = u.checked && u.count > 0;
    let b = u.checked && u.failed;
    let c = u.reboot_required;
    if a {
        assert(n[0].action == "Review"@);
        assert(n.contains(n[0]));
    }
    if b {
        let i: int = if a {
            1
        } else {
            0
        };
        assert(n[i].action == "Details"@);
        assert(n.contains(n[i]));
    }
    if c {
        let i: int = (if a {
            1int
        } else {
            0
        }) + (if b {
            1int
        } else {
            0
        });
        assert(n[i].action == "Power"@);
        assert(n.contains(n[i]));
    }
}

/// A disk or the memory is named where it is nearly full, with its share and
/// its colour, and not otherwise; the updates come first, then the disks in
/// order, then the memory.
pub proof fn law_fill_notices(disks: Seq<DiskInfo>, d: DiskInfo, m: Memory, u: UpdateFacts)
    ensures
        nearly_full(d.used, d.total) ==> disk_notices(disks.push(d)) == disk_notices(disks).push(
            NoticeView {
                tone: tone_of(d.used, d.total),
                text: d.mount@ + " is "@ + decimal(percent_of(d.used, d.total)) + "% full"@,
                action: "Storage"@,
                target: Tab::Storage,
            },
        ),
        !nearly_full(d.used, d.total) ==> disk_notices(disks.push(d)) == disk_notices(disks),
        disk_notices(Seq::empty()).len() == 0,
        nearly_full(m.used, m.total) ==> memory_notices(m) == seq![
            NoticeView {
                tone: tone_of(m.used, m.total),
                text: "Memory is "@ + decimal(percent_of(m.used, m.total)) + "% used"@,
                action: "Details"@,
                target: Tab::Performance,
            },
        ],
        !nearly_full(m.used, m.total) ==> memory_notices(m).len() == 0,
        notices_of(u, disks, m) == update_notices(u) + disk_notices(disks) + memory_notices(m),
{
    let f = |d: DiskInfo| disk_notice(d);
    assert(disks.push(d) =~= disks + seq![d]);
    law_kept_in_order(disks, seq![d], d, f);
    let k = disk_notices(disks);
    assert(k == kept(disks, f));
    assert(k + Seq::<NoticeView>::empty() =~= k);
    if let Some(n) = disk_notice(d) {
        assert(k + seq![n] =~= k.push(n));
    }
}

/// Every tab can be opened from the palette under its name, and the theme can
/// be switched.
pub proof fn law_all_commands()
    ensures
        all_commands().len() == 10,
        forall|i: int| 0 <= i < 9 ==> (#[trigger] all_commands()[i]).group == "GO TO"@,
        all_commands()[0].label == "Overview"@ && all_commands()[0].action == PaletteAction::GoTo(
            Tab::Overview,
        ),
        all_commands()[1].label == "Performance"@ && all_commands()[1].action
            == PaletteAction::GoTo(Tab::Performance),
        all_commands()[2].label == "Storage"@ && all_commands()[2].action == PaletteAction::GoTo(
            Tab::Storage,
        ),
        all_commands()[3].label == "Apps"@ && all_commands()[3].action == PaletteAction::GoTo(
            Tab::Apps,
        ),
        all_commands()[4].label == "Cleanup"@ && all_commands()[4].action == PaletteAction::GoTo(
            Tab::Cleanup,
        ),
        all_commands()[5].label == "Startup & Services"@ && all_commands()[5].action
            == PaletteAction::GoTo(Tab::Startup),
        all_commands()[6].label == "Sources"@ && all_commands()[6].action == PaletteAction::GoTo(
            Tab::Sources,
        ),
        all_commands()[7].label == "System Info"@ && all_commands()[7].action
            == PaletteAction::GoTo(Tab::SystemInfo),
        all_commands()[8].label == "Updates"@ && all_commands()[8].action == PaletteAction::GoTo(
            Tab::Updates,
        ),
        all_commands()[9].group == "THEME"@ && all_commands()[9].label == "Toggle light / dark"@
            && all_commands()[9].action == PaletteAction::ToggleTheme,
{
}

/// The arrow keys move the highlight by one and wrap around at both ends; one
/// beyond the list stands on the last.
pub proof fn law_arrow_keys(at: nat, n: nat)
    requires
        n > 0,
    ensures
        at + 1 < n ==> highlight_of(at, n, false, true) == at + 1,
        at + 1 == n ==> highlight_of(at, n, false, true) == 0,
        0 < at < n ==> highlight_of(at, n, true, false) == at - 1,
        at == 0 ==> highlight_of(at, n, true, false) == n - 1,
        at < n ==> highlight_of(at, n, false, false) == at,
        at >= n ==> highlight_of(at, n, false, false) == n - 1,
        at < n ==> highlight_of(at, n, true, true) == at,
        highlight_of(at, 0, false, false) == 0,
{
    if at + 1 < n {
        assert((at + 1) % n == at + 1) by (nonlinear_arith)
            requires
                at + 1 < n,
        ;
    }
    if at + 1 == n {
        assert((at + 1) % n == 0) by (nonlinear_arith)
            requires
                at + 1 == n,
                n > 0,
        ;
    }
    let ni = n as int;
    if 0 < at < n {
        assert((at + n - 1) % ni == at - 1) by (nonlinear_arith)
            requires
                ni == n,
                0 < at < n,
        ;
    }
    assert((0 + n - 1) % ni == n - 1) by (nonlinear_arith)
        requires
            ni == n,
            n > 0,
    ;
    if at + 1 < n {
        assert(((at + 1) + n - 1) % ni == at) by (nonlinear_arith)
            requires
                ni == n,
                at < n,
        ;
    }
}

/// The first run is noted below the configuration directory where there is
/// one, else below the one in the home directory, else nowhere.
pub proof fn law_welcome_path(config: Seq<char>, home: Seq<char>, other: Option<Seq<char>>)
    ensures
        config.len() > 0 ==> welcome_path_of(Some(config), other) == Some(
            path_in(path_in(config, "upulse"@), "welcomed"@),
        ),
        config.len() == 0 ==> welcome_path_of(Some(config), other) == welcome_path_of(None, other),
        welcome_path_of(None, Some(home)) == Some(
            path_in(path_in(home + "/.config"@, "upulse"@), "welcomed"@),
        ),
        welcome_path_of(None, None) is None,
{
}

/// Below a table of more than four hundred processes it is said how many there
/// are.
pub proof fn law_more_procs(n: nat)
    ensures
        n <= 400 ==> more_procs_of(n) is None,
        n > 400 ==> more_procs_of(n) == Some(
            "Showing the top 400 of "@ + decimal(n) + " processes"@,
        ),
{
}

/// The selected process is named, or it is said that it is gone.
pub proof fn law_selected_name(p: ProcKeyView, procs: Seq<ProcKeyView>, pid: u32)
    ensures
        p.pid == pid ==> name_of(seq![p] + procs, pid) == p.name,
        p.pid != pid ==> name_of(seq![p] + procs, pid) == name_of(procs, pid),
        name_of(Seq::empty(), pid) == "(gone)"@,
{
    assert((seq![p] + procs).skip(1) =~= procs);
}

/// What is said of a notice, a command, the palette and a process is said of the fields.
pub proof fn law_fields(
    notice: Notice,
    command: Command,
    palette: CommandBox,
    process: ProcKey,
    row: ProcRow,
)
    ensures
        notice@.tone == notice.tone,
        notice@.text == notice.text@,
        notice@.action == notice.action@,
        notice@.target == notice.target,
        command@.group == command.group@,
        command@.label == command.label@,
        command@.action == command.action,
        palette@.open == palette.open,
        palette@.query == palette.query@,
        palette@.at == palette.at as nat,
        process@.pid == process.pid,
        process@.name == process.name@,
        process@.cpu == process.cpu,
        process@.mem == process.mem,
        row@.place == row.place as int,
        row@.rank == row.rank,
        row@.text == row.text@,
{
}

/// A palette opens empty, at its first command.
pub proof fn law_fresh_box(open: bool)
    ensures
        fresh_box(open).open == open,
        fresh_box(open).query.len() == 0,
        fresh_box(open).at == 0,
{
}

/// Four notes are kept on the screen, and four hundred rows in the table.
pub proof fn law_limits()
    ensures
        TOAST_CAP == 4,
        SHOWN_PROCS == 400,
{
}

} // verus!
