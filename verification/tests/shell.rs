use upulse::fill::{is_critically_full, is_nearly_full, percent, usage_tone};
use upulse::metrics::{saturating_less, share, DiskInfo, Gates, Ring, HISTORY};
use upulse::shell::{
    attention, battery_tone, caption, commands, feature_of, filter_commands, filter_commands_lower,
    heat_tone, more_procs, move_highlight, order_procs, order_procs_lower, push_toast, selected_line,
    still_checking, unavailable, welcome_flag_path, welcome_seen, with_count, CommandBox, Health,
    Kicked, Memory, Moment, PaletteAction, ProcKey, ProcPick, Sort, Tab, Tone, UpdateFacts,
    DISK_REFRESH, IDLE_REFRESH, PROC_REFRESH, REFRESH, SHOWN_PROCS, TOAST_CAP,
};
use upulse::theme::{fmt_bytes, fmt_rate, fmt_uptime, rgb, Palette};
use upulse::updates::UpdatesChecker;
use upulse::util::{bin_candidates, join_path, package_tools_available};
use upulse::view::{
    matches_lower, panel, power_click, waiting, Armed, Confirm, Panel, Selection,
};

// --- sizes and times --------------------------------------------------------

fn bytes_by_float(b: u64) -> String {
    let units = ["B", "KB", "MB", "GB", "TB", "PB"];
    let mut v = b as f64;
    let mut i = 0;
    while v >= 1024.0 && i < units.len() - 1 {
        v /= 1024.0;
        i += 1;
    }
    if i == 0 {
        format!("{b} B")
    } else {
        format!("{v:.1} {}", units[i])
    }
}

#[test]
fn sizes_are_written_as_floating_point_writes_them() {
    let mut n: u64 = 1;
    for _ in 0..64 {
        for d in [0u64, 1, 2, 51, 52, 153, 1023] {
            for v in [n.wrapping_sub(d), n.wrapping_add(d), n.wrapping_mul(3).wrapping_add(d)] {
                assert_eq!(fmt_bytes(v), bytes_by_float(v), "{v}");
            }
        }
        n = n.wrapping_mul(2).max(1);
    }
    let mut x: u64 = 0x9e37_79b9_7f4a_7c15;
    for i in 0..20_000u32 {
        x = x.wrapping_mul(6364136223846793005).wrapping_add(1442695040888963407);
        let v = x >> (i % 64);
        assert_eq!(fmt_bytes(v), bytes_by_float(v), "{v}");
    }
    assert_eq!(fmt_bytes(1023), "1023 B");
    assert_eq!(fmt_bytes(1536), "1.5 KB");
    // A tie goes to the even digit.
    assert_eq!(fmt_bytes(1024 + 256), "1.2 KB");
    assert_eq!(fmt_bytes(u64::MAX), "16384.0 PB");
    assert_eq!(fmt_rate(3 * 1024 * 1024), "3.0 MB/s");
}

#[test]
fn uptimes_are_written() {
    assert_eq!(fmt_uptime(0), "00:00");
    assert_eq!(fmt_uptime(3_600 * 4 + 60 * 12 + 59), "04:12");
    assert_eq!(fmt_uptime(86_400 * 3 + 3_600 * 4 + 60 * 12), "3d 04:12");
    assert_eq!(fmt_uptime(86_399), "23:59");
}

#[test]
fn the_palettes_are_told_apart() {
    assert_eq!(Palette::dark().bg, rgb(0x0e, 0x11, 0x17));
    assert_eq!(Palette::light().bad, rgb(0xdc, 0x26, 0x26));
    assert!(!Palette::dark().is_light() && Palette::light().is_light());
}

// --- histories and disks ----------------------------------------------------

#[test]
fn a_history_keeps_the_newest_samples() {
    let mut r: Ring<u32> = Ring::new(0);
    assert_eq!(r.values(), vec![0; HISTORY]);
    for i in 1..=HISTORY as u32 + 3 {
        r.push(i);
    }
    let v = r.values();
    assert_eq!((v.len(), v[0], v[HISTORY - 1]), (HISTORY, 4, HISTORY as u32 + 3));
}

#[test]
fn disks_never_use_more_than_they_have() {
    let disk = |total: u64, available: u64, removable: bool| {
        DiskInfo::new(
            "/dev/sda1".to_string(),
            "/".to_string(),
            "ext4".to_string(),
            "SSD".to_string(),
            total,
            available,
            removable,
        )
    };
    let d = disk(4096, 1024, false);
    assert_eq!(d.used, 3072);
    assert_eq!(d.detail(), "/dev/sda1  ·  ext4 · SSD");
    assert_eq!(d.room(), "1.0 KB free of 4.0 KB");
    let d = disk(10, 20, true);
    assert_eq!(d.used, 0);
    assert_eq!(d.detail(), "/dev/sda1  ·  ext4 · SSD · removable");
    assert_eq!(saturating_less(1, 2), 0);
    assert_eq!(share(1024, " of ", 2048, " used"), "1.0 KB of 2.0 KB used");
}

#[test]
fn odd_samples_are_dropped() {
    let mut g = Gates::new();
    assert!(!g.admit_net() && g.admit_net());
    assert!(g.admit_temp(Some(40_000)) && g.temp_supported);
    assert!(!g.admit_temp(None) && !g.temp_supported);
    assert!(g.admit_temp(Some(1)) && !g.temp_supported);
}

// --- frames -----------------------------------------------------------------

fn moment(tab: Tab) -> Moment {
    Moment { focused: true, tab, pkg_ok: true, since_fast: 0, since_disk: 0, since_proc: 0 }
}

#[test]
fn each_tab_is_loaded_once() {
    let mut k = Kicked::new();
    let f = k.frame(moment(Tab::Overview));
    assert!(f.check_updates && !f.gather_system && !f.load_apps && !f.scan_cleanup);
    assert!(!f.load_startup && !f.load_repos);
    let f = k.frame(moment(Tab::Apps));
    assert!(f.load_apps && !f.check_updates);
    assert!(k.frame(moment(Tab::Cleanup)).scan_cleanup);
    assert!(k.frame(moment(Tab::Startup)).load_startup);
    assert!(k.frame(moment(Tab::Sources)).load_repos);
    assert!(k.frame(moment(Tab::SystemInfo)).gather_system);
    for tab in [Tab::Apps, Tab::Cleanup, Tab::Startup, Tab::Sources, Tab::SystemInfo] {
        let f = k.frame(moment(tab));
        assert!(!f.load_apps && !f.scan_cleanup && !f.load_startup && !f.load_repos);
        assert!(!f.gather_system && !f.check_updates);
    }
}

#[test]
fn without_the_tools_packages_are_left_alone() {
    let mut k = Kicked::new();
    for tab in [Tab::Apps, Tab::Cleanup, Tab::Sources, Tab::Startup, Tab::SystemInfo] {
        let f = k.frame(Moment { pkg_ok: false, ..moment(tab) });
        assert!(!f.check_updates && !f.load_apps && !f.scan_cleanup && !f.load_repos);
    }
    assert!(k.startup && k.system && !k.apps && !k.updates);
}

#[test]
fn refreshes_follow_the_clock() {
    let mut k = Kicked::new();
    let at = |focused: bool, tab: Tab, ms: u64| Moment {
        focused,
        since_fast: ms,
        since_disk: ms,
        since_proc: ms,
        ..moment(tab)
    };
    let f = k.frame(at(true, Tab::Performance, REFRESH));
    assert!(f.fast && !f.disks && !f.procs);
    assert_eq!(f.interval, REFRESH);
    let f = k.frame(at(false, Tab::Performance, PROC_REFRESH));
    assert!(!f.fast && !f.procs);
    assert_eq!(f.interval, IDLE_REFRESH);
    assert!(k.frame(at(true, Tab::Performance, PROC_REFRESH)).procs);
    assert!(!k.frame(at(true, Tab::Storage, PROC_REFRESH)).procs);
    assert!(k.frame(at(false, Tab::Storage, DISK_REFRESH)).disks);
    assert!(!k.frame(at(true, Tab::Storage, DISK_REFRESH - 1)).disks);
}

// --- health -----------------------------------------------------------------

fn facts(count: usize, reboot_required: bool, checked: bool, failed: bool) -> UpdateFacts {
    UpdateFacts { count, reboot_required, checked, failed, checking: false }
}

fn disk(mount: &str, used: u64, total: u64) -> DiskInfo {
    DiskInfo::new(
        "/dev/sda1".to_string(),
        mount.to_string(),
        "ext4".to_string(),
        "SSD".to_string(),
        total,
        total - used,
        false,
    )
}

const FREE: Memory = Memory { used: 1, total: 10 };

#[test]
fn health_is_never_better_than_known() {
    let with = |disks: &[DiskInfo], memory: Memory, pkg_ok: bool, u: UpdateFacts| {
        let h = Health::compute(disks, memory, pkg_ok, u);
        (h.tone, h.label)
    };
    let of = |disks: &[DiskInfo], memory: Memory, u: UpdateFacts| with(disks, memory, true, u);
    let bad = (Tone::Bad, "Attention needed".to_string());
    let good = (Tone::Good, "Healthy".to_string());
    let fine = facts(0, false, true, false);
    let disks = [disk("/", 89, 100), disk("/home", 1, 100)];
    assert_eq!(of(&[disk("/", 1, 100), disk("/home", 90, 100)], FREE, fine), bad);
    assert_eq!(of(&disks, Memory { used: 9, total: 10 }, facts(3, true, true, true)), bad);
    assert_eq!(
        of(&disks, FREE, facts(3, true, true, true)),
        (Tone::Warn, "Restart required".to_string())
    );
    assert_eq!(of(&disks, FREE, facts(3, false, true, true)), (Tone::Warn, "3 updates".to_string()));
    let unknown = (Tone::Muted, "Can't check updates".to_string());
    assert_eq!(of(&disks, FREE, facts(0, false, true, true)), unknown);
    // Not checked yet, or failed before anything was read.
    assert_eq!(of(&disks, FREE, facts(0, false, false, false)), unknown);
    assert_eq!(of(&disks, FREE, facts(0, false, false, true)), unknown);
    assert_eq!(of(&[], Memory { used: 5, total: 0 }, facts(3, false, false, false)), unknown);
    assert_eq!(of(&disks, FREE, fine), good);
    // Without the tools there is nothing to check, but a failure still counts.
    assert_eq!(with(&disks, FREE, false, facts(0, false, false, false)), good);
    assert_eq!(with(&disks, FREE, false, facts(0, false, false, true)), unknown);
    assert_eq!(with(&disks, FREE, false, fine), good);
}

#[test]
fn tabs_name_what_needs_the_tools() {
    let named = [
        (Tab::Apps, "App management"),
        (Tab::Cleanup, "Cleanup"),
        (Tab::Sources, "Repositories"),
        (Tab::Updates, "System updates"),
    ];
    for (tab, name) in named {
        assert_eq!(feature_of(tab), Some(name));
    }
    assert_eq!(feature_of(Tab::Overview), None);
    assert_eq!(feature_of(Tab::Performance), None);
}

#[test]
fn shares_agree_with_floating_point() {
    let mut x: u64 = 0x1234_5678_9abc_def1;
    let mut cases: Vec<(u64, u64)> = vec![
        (0, 0), (0, 1), (1, 0), (1, 1), (85, 100), (84, 100), (60, 100), (59, 100), (9, 10), (17, 20),
        (3, 5), (1, u64::MAX), (u64::MAX, 1), (u64::MAX, u64::MAX), (16777217, 16777219),
        (14260634, 16777216), (14260633, 16777216), (10066330, 16777216), (15099494, 16777216),
        (15099493, 16777216), (10066329, 16777216), (1, 200), (3, 200), (5, 1000), (125, 1000),
    ];
    for i in 0..20_000u32 {
        x = x.wrapping_mul(6364136223846793005).wrapping_add(1442695040888963407);
        let total = (x >> (i % 60)).max(1);
        x = x.wrapping_mul(6364136223846793005).wrapping_add(1442695040888963407);
        cases.push((x % total, total));
        // Just at the levels.
        for level in [60u128, 85, 90] {
            let at = (total as u128 * level / 100) as u64;
            cases.push((at, total));
            cases.push((at.saturating_add(1), total));
        }
    }
    for (used, total) in cases {
        let f = if total == 0 { 0.0 } else { used as f32 / total as f32 };
        let tone = if f < 0.60 {
            Tone::Good
        } else if f < 0.85 {
            Tone::Warn
        } else {
            Tone::Bad
        };
        assert_eq!(usage_tone(used, total), tone, "{used} {total}");
        assert_eq!(is_nearly_full(used, total), f >= 0.85, "{used} {total}");
        assert_eq!(is_critically_full(used, total), f >= 0.90, "{used} {total}");
        assert_eq!(percent(used, total), format!("{:.0}", f * 100.0), "{used} {total}");
    }
}

#[test]
fn counts_of_both_kinds_are_taken_together() {
    let mut c = UpdatesChecker::new();
    c.state.count = 2;
    c.state.snap_count = 3;
    c.state.checked = true;
    assert_eq!(UpdateFacts::of(&c.state), Some(facts(5, false, true, false)));
    c.state.count = usize::MAX;
    assert_eq!(UpdateFacts::of(&c.state), None);
}

#[test]
fn everything_that_needs_attention_is_listed() {
    let list = attention(
        facts(1, true, true, true),
        &[disk("/", 97, 100), disk("/boot", 84, 100), disk("/home", 858, 1000)],
        Memory { used: 91, total: 100 },
    );
    let rows: Vec<(Tone, &str, &str, Tab)> =
        list.iter().map(|n| (n.tone, n.text.as_str(), n.action, n.target)).collect();
    assert_eq!(
        rows,
        vec![
            (Tone::Warn, "1 update available", "Review", Tab::Updates),
            (Tone::Muted, "Couldn't check for updates", "Details", Tab::Updates),
            (Tone::Warn, "Restart required to finish updates", "Power", Tab::Updates),
            (Tone::Bad, "/ is 97% full", "Storage", Tab::Storage),
            (Tone::Bad, "/home is 86% full", "Storage", Tab::Storage),
            (Tone::Bad, "Memory is 91% used", "Details", Tab::Performance),
        ]
    );
    assert_eq!(attention(facts(2, false, true, false), &[], FREE)[0].text, "2 updates available");
    assert!(attention(facts(2, false, false, true), &[], FREE).is_empty());
    let u = facts(0, false, false, false);
    assert!(still_checking(true, u) && !still_checking(false, u));
    assert!(!still_checking(true, facts(0, false, true, false)));
    assert!(still_checking(true, UpdateFacts { checked: true, checking: true, ..u }));
}

// --- the command palette ----------------------------------------------------

#[test]
fn commands_are_found_by_label() {
    let all = commands();
    assert_eq!(all.len(), 10);
    assert_eq!((all[9].group, all[9].action), ("THEME", PaletteAction::ToggleTheme));
    assert_eq!(all[5].action, PaletteAction::GoTo(Tab::Startup));
    assert_eq!(filter_commands("").len(), 10);
    assert_eq!(filter_commands("UP"), vec![4, 5, 8]);
    assert_eq!(filter_commands_lower("light /"), vec![9]);
    assert!(filter_commands("nothing").is_empty());
}

#[test]
fn the_highlight_wraps_round() {
    assert_eq!(move_highlight(9, 10, false, true), 0);
    assert_eq!(move_highlight(0, 10, true, false), 9);
    assert_eq!(move_highlight(3, 10, true, true), 3);
    assert_eq!(move_highlight(7, 3, false, false), 2);
    assert_eq!(move_highlight(7, 0, true, true), 0);
    let mut b = CommandBox::new();
    assert!(!b.open);
    b.query = "x".to_string();
    b.toggle();
    assert!(b.open && b.query.is_empty());
    b.keys(3, false, true, false);
    assert_eq!(b.at, 2);
    b.query = "y".to_string();
    b.keys(3, true, true, false);
    assert!(!b.open && b.at == 2 && b.query == "y");
    b.show();
    assert!(b.open && b.at == 0 && b.query.is_empty());
    b.close();
    assert!(!b.open);
}

// --- the rest of the window -------------------------------------------------

#[test]
fn texts_of_the_window() {
    assert_eq!(caption("AB"), "A\u{2009}B\u{2009}");
    assert_eq!(caption(""), "");
    assert_eq!(
        unavailable("Cleanup"),
        "Cleanup needs APT and pkexec, which aren't available on this system."
    );
    assert_eq!(with_count("Processes", 12), "Processes (12)");
}

#[test]
fn notices_pass() {
    let mut t: Vec<u8> = Vec::new();
    for i in 0..TOAST_CAP as u8 + 2 {
        push_toast(&mut t, i);
    }
    assert_eq!(t, vec![2, 3, 4, 5]);
}

#[test]
fn the_first_run_is_noted() {
    let path = |c: Option<&str>, h: Option<&str>| {
        welcome_flag_path(&c.map(str::to_string), &h.map(str::to_string))
    };
    assert_eq!(path(Some("/cfg"), Some("/h")), Some("/cfg/upulse/welcomed".to_string()));
    assert_eq!(path(Some(""), Some("/h")), Some("/h/.config/upulse/welcomed".to_string()));
    assert_eq!(path(None, Some("/h")), Some("/h/.config/upulse/welcomed".to_string()));
    assert_eq!(path(None, None), None);
    assert_eq!(path(Some(""), None), None);
    assert!(welcome_seen(None) && welcome_seen(Some(true)) && !welcome_seen(Some(false)));
}

#[test]
fn sensors_are_coloured() {
    assert_eq!(
        [100u8, 50, 49, 20, 19].map(battery_tone),
        [Tone::Good, Tone::Good, Tone::Warn, Tone::Warn, Tone::Bad]
    );
    assert_eq!(
        [-1i64, 59_999, 60_000, 79_999, 80_000].map(heat_tone),
        [Tone::Good, Tone::Good, Tone::Warn, Tone::Warn, Tone::Bad]
    );
}

fn procs() -> Vec<ProcKey> {
    [(30, "bash", 5, 100), (10, "Zoom", 90, 700), (20, "apt", 5, 700), (40, "bash", 0, 1)]
        .iter()
        .map(|(pid, name, cpu, mem)| ProcKey {
            pid: *pid,
            name: name.to_string(),
            cpu: *cpu,
            mem: *mem,
        })
        .collect()
}

#[test]
fn processes_are_sorted_and_filtered() {
    let p = procs();
    assert_eq!(order_procs(&p, "", Sort::Cpu), vec![1, 0, 2, 3]);
    assert_eq!(order_procs(&p, "", Sort::Mem), vec![1, 2, 0, 3]);
    assert_eq!(order_procs(&p, "", Sort::Name), vec![2, 0, 3, 1]);
    assert_eq!(order_procs(&p, "", Sort::Pid), vec![1, 2, 0, 3]);
    assert_eq!(order_procs(&p, "BAS", Sort::Pid), vec![0, 3]);
    assert_eq!(order_procs_lower(&p, "zoom", Sort::Cpu), vec![1]);
    assert_eq!(selected_line(&p, 20), "Selected: apt  ·  PID 20");
    assert_eq!(selected_line(&p, 21), "Selected: (gone)  ·  PID 21");
    assert_eq!(more_procs(SHOWN_PROCS), None);
    assert_eq!(
        more_procs(SHOWN_PROCS + 1),
        Some("Showing the top 400 of 401 processes".to_string())
    );
}

#[test]
fn a_process_ends_after_two_clicks() {
    let mut p = ProcPick::new();
    assert_eq!(p.click_end(), None);
    p.click_row(7);
    assert_eq!(p.selected, Some(7));
    assert!(!p.is_armed());
    assert_eq!(p.click_end(), None);
    assert!(p.is_armed());
    p.cancel();
    assert!(!p.is_armed() && p.selected == Some(7));
    assert_eq!(p.click_end(), None);
    assert_eq!(p.click_end(), Some(7));
    assert!(!p.is_armed());
    p.signalled(false);
    assert_eq!(p.selected, Some(7));
    p.signalled(true);
    assert_eq!(p.selected, None);
    p.click_row(7);
    p.click_end();
    p.click_row(8);
    assert!(!p.is_armed() && p.selected == Some(8));
    p.click_row(8);
    assert_eq!(p.selected, None);
    p.click_row(8);
    p.clear();
    assert_eq!(p, ProcPick::new());
}

// --- what the tabs share ----------------------------------------------------

#[test]
fn ticks_come_and_go() {
    let mut s = Selection::new();
    assert!(s.is_empty());
    s.toggle("a");
    s.toggle("b");
    s.toggle("c");
    assert_eq!((s.len(), s.contains("b")), (3, true));
    s.toggle("b");
    assert!(!s.contains("b"));
    s.retain(&["c".to_string(), "d".to_string()]);
    assert_eq!(s.to_vec(), vec!["c"]);
    s.clear();
    assert!(s.is_empty());
}

#[test]
fn destructive_things_take_two_clicks() {
    let mut a = Armed::new();
    assert!(!a.click("x"));
    assert!(a.is_armed("x") && !a.is_armed("y"));
    // Another one takes its place.
    assert!(!a.click("y"));
    assert!(!a.is_armed("x"));
    assert!(a.click("y"));
    assert!(!a.is_armed("y"));
    assert!(!a.click("y"));
    a.disarm();
    assert!(!a.click("y"));
    assert_eq!(power_click(None, Confirm::Reboot), (Some(Confirm::Reboot), false));
    assert_eq!(
        power_click(Some(Confirm::Reboot), Confirm::PowerOff),
        (Some(Confirm::PowerOff), false)
    );
    assert_eq!(power_click(Some(Confirm::Reboot), Confirm::Reboot), (None, true));
}

#[test]
fn panels_follow_a_command() {
    assert_eq!(panel(true, true, 0, false), Panel::Running);
    assert_eq!(panel(false, true, 1, true), Panel::Finished { ok: true });
    assert_eq!(panel(false, true, 0, true), Panel::Hidden);
    assert_eq!(panel(false, false, 5, true), Panel::Hidden);
    assert!(waiting(true, 0) && !waiting(true, 1) && !waiting(false, 0));
    assert!(matches_lower("HELLO", "ell") && matches_lower("x", "") && !matches_lower("x", "y"));
    // Folding is that of the whole alphabet.
    assert!(matches_lower("ÄRGER", "ä"));
}

#[test]
fn programs_are_looked_for_on_the_path() {
    assert_eq!(join_path("/usr/bin", "snap"), "/usr/bin/snap");
    assert_eq!(join_path("/", "snap"), "/snap");
    assert_eq!(join_path("", "snap"), "snap");
    assert_eq!(bin_candidates("/usr/bin:/bin:", "apt"), vec!["/usr/bin/apt", "/bin/apt", "apt"]);
    assert!(package_tools_available(true, true, true));
    assert!(!package_tools_available(true, false, true));
}
