use upulse::cleanup::{
    apt_autoremove_bytes, clean_command, du_bytes, flatpak_fits, journal_bytes, measure,
    measure_all, measure_flatpak, measure_snap, parse_flatpak_sizes, parse_flatpak_unused,
    parse_journal_size, parse_size_unit, parse_snap_disabled, plan, probe, selected_line, snap_seed,
    target_keys, valid_flatpak_part, valid_snap_name, valid_snap_rev, CleanTarget, Cleanup, Probe,
};
use upulse::view::Selection;

// Captured from a real `snap list --all` on Ubuntu 24.04.
const SNAP_FIXTURE: &str = "\
Name       Version          Rev    Tracking       Publisher       Notes
bare       1.0              5      latest/stable  canonical**     base
bitwarden  2026.4.0         159    latest/stable  bitwarden**     -
bitwarden  2026.3.1         157    latest/stable  bitwarden**     disabled
code       4fe60c8b         248    latest/stable  vscode**        disabled,classic
core20     20260211         2769   latest/stable  canonical**     base,disabled
firefox    153.0-1          8664   latest/stable  mozilla**       -
";

#[test]
fn snap_parser_finds_disabled_rows_only() {
    let revs = parse_snap_disabled(SNAP_FIXTURE);
    assert_eq!(
        revs,
        vec![
            ("bitwarden".to_string(), "157".to_string()),
            ("code".to_string(), "248".to_string()),
            ("core20".to_string(), "2769".to_string()),
        ]
    );
}

#[test]
fn snap_parser_drops_malformed_rows() {
    // Too few columns / injection-looking name — both dropped.
    let out = "Name Version Rev Tracking Publisher Notes\n\
               short row disabled\n\
               bad;name 1.0 12 latest/stable pub** disabled\n";
    assert!(parse_snap_disabled(out).is_empty());
}

#[test]
fn snap_validators_reject_shell_metacharacters() {
    assert!(valid_snap_name("core20"));
    assert!(valid_snap_name("firmware-updater"));
    assert!(!valid_snap_name("a;b"));
    assert!(!valid_snap_name("a b"));
    assert!(!valid_snap_name("$(reboot)"));
    assert!(!valid_snap_name(""));
    assert!(!valid_snap_name("Upper"));
    assert!(valid_snap_rev("1443"));
    assert!(valid_snap_rev("x1"));
    assert!(!valid_snap_rev("1443; rm -rf /"));
    assert!(!valid_snap_rev(""));
}

#[test]
fn flatpak_unused_parser_reads_numbered_rows() {
    let out = "\
Found 2 unused refs:
        ID                          Branch    Op
 1.     org.gnome.Platform          45        r
 2.     org.freedesktop.Platform    23.08     r

Proceed with these changes to the system installation? [Y/n]: ";
    assert_eq!(
        parse_flatpak_unused(out),
        vec![
            ("org.gnome.Platform".to_string(), "45".to_string()),
            ("org.freedesktop.Platform".to_string(), "23.08".to_string()),
        ]
    );
}

#[test]
fn flatpak_unused_parser_ignores_prose_and_junk() {
    assert!(parse_flatpak_unused("Nothing unused to uninstall\n").is_empty());
    // Numbered row whose id has no dot, or with shell junk → dropped.
    let out = " 1. noDotHere 45 r\n 2. org.x.Y$(id) 45 r\n";
    assert!(parse_flatpak_unused(out).is_empty());
}

#[test]
fn flatpak_sizes_parser_handles_both_ref_shapes() {
    let out = "runtime/org.gnome.Platform/x86_64/45\t1.2 GB\n\
               org.mozilla.firefox/x86_64/stable\t310.2 MB\n\
               not-a-ref\t1 MB\n";
    let sizes = parse_flatpak_sizes(out);
    assert_eq!(sizes.len(), 2);
    assert_eq!(sizes[0].0, "org.gnome.Platform");
    assert_eq!(sizes[0].1, "45");
    assert_eq!(sizes[0].2, 1_200_000_000);
    assert_eq!(sizes[1].0, "org.mozilla.firefox");
    assert_eq!(sizes[1].1, "stable");
    assert_eq!(sizes[1].2, 310_200_000);
}

#[test]
fn size_unit_parser_regressions() {
    assert_eq!(parse_size_unit("234 MB"), 234_000_000);
    assert_eq!(parse_size_unit("1.5 GB"), 1_500_000_000);
    assert_eq!(parse_size_unit("512 kB"), 512_000);
    assert_eq!(parse_size_unit("0 B"), 0);
    assert_eq!(parse_size_unit("garbage"), 0);
}

#[test]
fn journal_size_parser_regressions() {
    assert_eq!(
        parse_journal_size("1.2G"),
        (1.2 * 1024.0 * 1024.0 * 1024.0) as u64
    );
    assert_eq!(
        parse_journal_size("240.0M"),
        (240.0 * 1024.0 * 1024.0) as u64
    );
    assert_eq!(parse_journal_size("512.0K"), 512 * 1024);
    assert_eq!(parse_journal_size("900B"), 900);
    assert_eq!(parse_journal_size("words"), 0);
}

fn pairs(items: &[(&str, &str)]) -> Vec<(String, String)> {
    items.iter().map(|(a, b)| (a.to_string(), b.to_string())).collect()
}

fn strings(items: &[&str]) -> Vec<String> {
    items.iter().map(|s| s.to_string()).collect()
}

/// The sizes as the machine's own floating point computes them.
fn by_float(num: &str, mult: f64) -> u64 {
    num.parse::<f64>().map(|v| (v * mult) as u64).unwrap_or(0)
}

#[test]
fn sizes_agree_with_floating_point() {
    let numbers = [
        "0", "1", "1.5", "0.1", "0.3", "2.675", "1e3", "1E-2", "+4.5", "-7", ".5", "5.", "310.2",
        "123456789.987654321", "9007199254740993", "18446744073709551615", "1e400", "1e-400",
        "inf", "nan", "infinity", "-inf", "1e", "e1", ".", "", "1_0", "0x10", "1.2.3", "7.25e2",
        "0.000000001", "4503599627370497.5", "1.7976931348623157e308", "99999999999.99999999999",
        "0.1000000000000000055511151231257827", "179769313486231580793e289",
    ];
    for n in numbers {
        for (unit, mult) in
            [("B", 1.0), ("kB", 1_000.0), ("KB", 1_000.0), ("MB", 1_000_000.0), ("GB", 1e9)]
        {
            assert_eq!(parse_size_unit(&format!("{n} {unit}")), by_size_unit(n, mult), "{n} {unit}");
        }
        for (unit, mult) in [("G", 1024.0 * 1024.0 * 1024.0), ("M", 1048576.0), ("K", 1024.0)] {
            assert_eq!(parse_journal_size(&format!("{n}{unit}")), by_float(n, mult), "{n}{unit}");
        }
    }
}

/// An empty number leaves the unit as the first word.
fn by_size_unit(n: &str, mult: f64) -> u64 {
    if n.is_empty() {
        0
    } else {
        by_float(n, mult)
    }
}

#[test]
fn many_plain_amounts_agree_with_floating_point() {
    for whole in [0u64, 1, 7, 23, 999, 1024, 65537] {
        for tenth in 0..100 {
            let n = format!("{whole}.{tenth:02}");
            assert_eq!(parse_size_unit(&format!("{n} GB")), by_float(&n, 1e9));
            assert_eq!(parse_journal_size(&format!("{n}G")), by_float(&n, 1073741824.0));
        }
    }
}

#[test]
fn an_unknown_unit_counts_bytes() {
    assert_eq!(parse_size_unit("12 TB"), 12);
    assert_eq!(parse_size_unit("12"), 12);
    assert_eq!(parse_size_unit(""), 0);
    // A full stop may follow.
    assert_eq!(parse_journal_size("8.0M."), 8 * 1024 * 1024);
    assert_eq!(parse_journal_size("G"), 0);
}

#[test]
fn tool_output_is_measured() {
    assert_eq!(du_bytes("12345\t/var/cache/apt/archives\n"), 12345);
    assert_eq!(du_bytes("du: cannot access\n"), 0);
    assert_eq!(du_bytes(""), 0);
    assert_eq!(
        apt_autoremove_bytes("Reading…\nAfter this operation, 234 MB disk space will be freed.\n"),
        234_000_000
    );
    assert_eq!(apt_autoremove_bytes("234 MB disk space will be freed.\n"), 0);
    assert_eq!(apt_autoremove_bytes("0 upgraded.\n"), 0);
    // The first line that has a comma in front decides.
    assert_eq!(
        apt_autoremove_bytes("1 MB will be freed\na, 2 kB will be freed, 3 kB will be freed\n"),
        2_000
    );
    assert_eq!(
        journal_bytes("Archived and active journals take up 240.0M in the file system.\n"),
        240 * 1024 * 1024
    );
    assert_eq!(journal_bytes("nothing here\n"), 0);
}

#[test]
fn probes_name_fixed_places() {
    let usage = |key: &str| match probe(key, "/home/u") {
        Probe::Usage(p) => p,
        _ => panic!("{key}"),
    };
    assert_eq!(usage("apt"), "/var/cache/apt/archives");
    assert_eq!(usage("crash"), "/var/crash");
    assert_eq!(usage("thumbnails"), "/home/u/.cache/thumbnails");
    assert_eq!(usage("trash"), "/home/u/.local/share/Trash");
    assert!(matches!(probe("autoremove", "/home/u"), Probe::Autoremove));
    assert!(matches!(probe("journal", "/home/u"), Probe::Journal));
    assert!(matches!(probe("documents", "/home/u"), Probe::Nothing));
    assert_eq!(measure("apt", &Some("77\tx".to_string())), 77);
    assert_eq!(measure("journal", &Some("1.0K".to_string())), 1024);
    assert_eq!(measure("autoremove", &Some("x, 5 kB will be freed".to_string())), 5000);
    assert_eq!(measure("apt", &None), 0);
    assert_eq!(measure("documents", &Some("77".to_string())), 0);
}

fn targets() -> Vec<CleanTarget> {
    let replies: Vec<Option<String>> = vec![
        Some("1048576\tx".to_string()),
        None,
        Some("take up 1.0K in".to_string()),
        Some("0\tx".to_string()),
        Some("10\tx".to_string()),
        Some("junk".to_string()),
    ];
    assert_eq!(target_keys().len(), replies.len());
    measure_all(
        &replies,
        Some(measure_snap(&[0, 0])),
        Some(measure_flatpak(
            &pairs(&[("org.gnome.Platform", "45"), ("org.x.Y", "1")]),
            &[("org.gnome.Platform".to_string(), "45".to_string(), 7)],
        )),
    )
}

#[test]
fn every_target_is_listed_in_order() {
    assert_eq!(
        target_keys(),
        vec!["apt", "autoremove", "journal", "crash", "thumbnails", "trash"]
    );
    let ts = targets();
    let sizes: Vec<(&str, u64, usize)> = ts.iter().map(|t| (t.key, t.size, t.items)).collect();
    assert_eq!(
        sizes,
        vec![
            ("apt", 1048576, 0),
            ("autoremove", 0, 0),
            ("journal", 1024, 0),
            ("crash", 0, 0),
            ("thumbnails", 10, 0),
            ("trash", 0, 0),
            ("snap", 0, 2),
            ("flatpak", 7, 2),
        ]
    );
    assert_eq!(ts[0].label, "Apt package cache");
    assert_eq!(ts[0].detail, "Downloaded .deb files in /var/cache/apt");
    assert_eq!(ts[6].detail, "2 old disabled revision(s) kept by snapd");
    assert_eq!(ts[7].detail, "2 runtime(s) no installed app needs");
    assert_eq!(measure_snap(&[]).detail, "No disabled revisions — snapd is tidy");
    assert_eq!(measure_flatpak(&[], &[]).detail, "Every installed runtime is still needed");
    assert_eq!(measure_all(&[None, None, None, None, None, None], None, None).len(), 6);
    assert_eq!(snap_seed("core20", "2769"), "/var/lib/snapd/snaps/core20_2769.snap");
    let huge = [("a".to_string(), "b".to_string(), u64::MAX)];
    assert!(flatpak_fits(&pairs(&[("a", "b")]), &huge));
    assert!(!flatpak_fits(&pairs(&[("a", "b"), ("a", "b")]), &huge));
}

#[test]
fn rows_without_gain_cannot_be_ticked() {
    let ts = targets();
    let can: Vec<&str> = ts.iter().filter(|t| t.is_selectable()).map(|t| t.key).collect();
    assert_eq!(can, vec!["apt", "journal", "thumbnails", "snap", "flatpak"]);
    assert_eq!(ts[0].size_text(), "1.0 MB");
    assert_eq!(ts[6].size_text(), "2 items");
    assert_eq!(ts[3].size_text(), "0 B");
}

#[test]
fn commands_are_fixed() {
    let revs = pairs(&[("core20", "1"), ("code", "x2")]);
    let cmd = |key: &str| clean_command(key, "/home/u", &revs);
    assert_eq!(cmd("apt"), Some(("apt-get clean".to_string(), true)));
    assert_eq!(cmd("autoremove"), Some(("apt-get -y autoremove --purge".to_string(), true)));
    assert_eq!(
        cmd("journal"),
        Some(("journalctl --rotate ; journalctl --vacuum-time=3d".to_string(), true))
    );
    assert_eq!(cmd("crash"), Some(("rm -rf /var/crash/*".to_string(), true)));
    assert_eq!(
        cmd("thumbnails"),
        Some(("rm -rf '/home/u/.cache/thumbnails'".to_string(), false))
    );
    assert_eq!(
        cmd("trash"),
        Some((
            "rm -rf '/home/u/.local/share/Trash/files' '/home/u/.local/share/Trash/info'"
                .to_string(),
            false
        ))
    );
    assert_eq!(
        cmd("snap"),
        Some((
            "snap remove core20 --revision=1 ; snap remove code --revision=x2".to_string(),
            true
        ))
    );
    assert_eq!(
        cmd("flatpak"),
        Some(("flatpak uninstall --unused -y --noninteractive".to_string(), false))
    );
    assert_eq!(clean_command("snap", "/home/u", &[]), None);
    assert_eq!(cmd("documents"), None);
}

#[test]
fn a_plan_asks_for_the_password_once() {
    let keys = strings(&["trash", "apt", "nonsense", "flatpak", "crash"]);
    let p = plan(&keys, "/h", &[]);
    assert_eq!(
        p.user.as_deref(),
        Some(
            "rm -rf '/h/.local/share/Trash/files' '/h/.local/share/Trash/info' ; \
             flatpak uninstall --unused -y --noninteractive 2>&1"
        )
    );
    assert_eq!(p.root.as_deref(), Some("apt-get clean ; rm -rf /var/crash/* 2>&1"));
    let p = plan(&strings(&["snap"]), "/h", &[]);
    assert!(p.user.is_none() && p.root.is_none());
}

#[test]
fn a_clean_runs_and_ends() {
    let mut c = Cleanup::new();
    assert!(!c.clean(&[]));
    assert!(c.scan());
    assert!(c.is_scanning() && !c.scan() && !c.clean(&strings(&["apt"])));
    c.measured(targets());
    assert!(c.state.scanned && !c.is_scanning());
    assert!(c.state.total_fits());
    assert_eq!(c.state.total(), 1048576 + 1024 + 10 + 7);
    assert!(c.clean(&strings(&["apt"])));
    assert!(c.is_busy() && !c.scan());
    assert_eq!(c.state.log, strings(&["Cleaning…"]));
    c.push_log("x".to_string());
    c.cleaned(targets(), false);
    assert!(!c.is_busy() && c.state.done && !c.state.ok);
    assert_eq!(
        c.state.error.as_deref(),
        Some("Some items couldn't be cleaned. See the log above.")
    );
    c.dismiss();
    assert!(c.state.log.is_empty() && !c.state.done);
    assert!(c.clean(&strings(&["apt"])));
    c.cleaned(targets(), true);
    assert!(c.state.ok && c.state.error.is_none());
}

#[test]
fn the_selection_follows_the_targets() {
    let mut c = Cleanup::new();
    c.measured(targets());
    let mut s = Selection::new();
    s.toggle("apt");
    s.toggle("trash");
    s.toggle("flatpak");
    s.retain(&c.state.selectable_keys());
    assert!(s.contains("apt") && s.contains("flatpak") && !s.contains("trash"));
    assert_eq!(c.state.selected_size(&s), Some(1048576 + 7));
    assert_eq!(selected_line(s.len(), 1048583), "2 selected  ·  frees ~1.0 MB");
    c.state.targets[0].size = u64::MAX;
    assert_eq!(c.state.selected_size(&s), None);
    assert!(!c.state.total_fits());
}

#[test]
fn flatpak_parts_carry_no_shell_syntax() {
    assert!(valid_flatpak_part("org.gnome.Platform_x-1"));
    assert!(!valid_flatpak_part("a/b"));
    assert!(!valid_flatpak_part(""));
    assert!(!valid_flatpak_part(&"a".repeat(200)));
}
