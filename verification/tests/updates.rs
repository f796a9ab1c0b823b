use upulse::updates::{
    check_error, count_label, install_error, install_script, list_upgradable, parse_snap_refresh,
    reading_of, reboot_required, refresh_error, refresh_script, Card, Reading, Reply,
    UpdatesChecker, PACKAGE_CAP,
};

#[test]
fn a_reading_tells_failure_from_nothing_pending() {
    let reply = |ok: bool, text: &str| Some(Reply { ok, text: text.to_string() });
    let apt = reply(true, "Listing...\nvim/noble 9.1 amd64 [upgradable from: 9.0]\n");
    let row = "Name Version Rev Size Publisher Notes\nfirefox 153.0 8702 270MB mozilla -\n";

    let r = reading_of(&apt, true, &reply(true, row), true);
    assert_eq!(r.apt, Some((1, vec!["vim".to_string()])));
    assert_eq!(r.snaps, Some(vec![("firefox".to_string(), "153.0".to_string())]));
    assert!(r.reboot_required);

    let r = reading_of(&reply(false, "vim/noble\n"), true, &reply(false, row), false);
    assert_eq!((r.apt, r.snaps, r.reboot_required), (None, None, false));

    let r = reading_of(&None, true, &None, false);
    assert_eq!((r.apt, r.snaps), (None, None));

    // Without snap there is nothing to refresh, whatever came back.
    for snap in [None, reply(false, ""), reply(true, row)] {
        let r = reading_of(&reply(true, ""), false, &snap, false);
        assert_eq!((r.apt, r.snaps), (Some((0, Vec::new())), Some(Vec::new())));
    }
}

// Captured from a real `snap refresh --list` on Ubuntu 24.04.
const REFRESH_FIXTURE: &str = "\
Name           Version                         Rev   Size    Publisher       Notes
code           e4c7e7b1                        254   493MB   vscode**        classic
cups           2.4.19-2                        1238  50.2MB  openprinting**  -
firefox        153.0.1-2                       8702  270MB   mozilla**       -
gnome-46-2404  0+git.b31ceab-sdk0+git.f0723a0  164   644MB   canonical**     -
pixeltaken     0.14.2b1                        57    132MB   jointoit        -
";

#[test]
fn snap_refresh_parser_reads_pending_rows() {
    let snaps = parse_snap_refresh(REFRESH_FIXTURE);
    assert_eq!(snaps.len(), 5);
    assert_eq!(snaps[0], ("code".to_string(), "e4c7e7b1".to_string()));
    assert_eq!(snaps[4], ("pixeltaken".to_string(), "0.14.2b1".to_string()));
}

#[test]
fn snap_refresh_parser_empty_when_up_to_date() {
    // "All snaps up to date." goes to stderr; stdout is empty.
    assert!(parse_snap_refresh("").is_empty());
    // And even if a prose line ever landed on stdout, it can't parse as a row.
    assert!(parse_snap_refresh("All snaps up to date.\n").is_empty());
}

#[test]
fn snap_refresh_parser_skips_header_and_junk() {
    let out = "Name Version Rev Size Publisher Notes\nshort row\nBad;name 1.0 1 1MB pub -\n";
    assert!(parse_snap_refresh(out).is_empty());
}

fn strings(items: &[&str]) -> Vec<String> {
    items.iter().map(|s| s.to_string()).collect()
}

fn reading(apt: usize, snaps: &[(&str, &str)]) -> Reading {
    Reading {
        apt: Some((apt, strings(&["bash"]))),
        snaps: Some(snaps.iter().map(|(a, b)| (a.to_string(), b.to_string())).collect()),
        reboot_required: false,
    }
}

fn blind() -> Reading {
    Reading { apt: None, snaps: None, reboot_required: true }
}

#[test]
fn upgradable_packages_are_counted_past_the_cap() {
    assert_eq!(
        list_upgradable("Listing...\nbash/noble 5.2 amd64 [upgradable from: 5.1]\n /x\nzsh /y\n"),
        (2, strings(&["bash", "zsh"]))
    );
    let mut out = String::new();
    for i in 0..PACKAGE_CAP + 30 {
        out.push_str(&format!("p{i}/noble 1 amd64\n"));
    }
    let (n, names) = list_upgradable(&out);
    assert_eq!((n, names.len()), (PACKAGE_CAP + 30, PACKAGE_CAP));
    assert_eq!(names[PACKAGE_CAP - 1], format!("p{}", PACKAGE_CAP - 1));
}

#[test]
fn failed_checks_say_what_failed() {
    let of = |apt: bool, snap: bool| check_error(apt, snap);
    assert_eq!(of(false, false), None);
    let text = |what: &str| {
        Some(format!(
            "Couldn't check for {what} — the tools didn't respond. Counts may be incomplete; try “Check again”."
        ))
    };
    assert_eq!(of(true, true), text("APT or snap updates"));
    assert_eq!(of(true, false), text("APT updates"));
    assert_eq!(of(false, true), text("snap updates"));
    assert!(reboot_required(true, false) && reboot_required(false, true));
    assert!(!reboot_required(false, false));
}

#[test]
fn a_check_runs_and_ends() {
    let mut u = UpdatesChecker::new();
    assert_eq!(u.state.card(), Card::NotChecked);
    assert!(u.check());
    assert!(u.is_checking() && !u.check() && !u.install() && !u.refresh_snaps());
    assert_eq!(u.state.card(), Card::Checking);
    u.checked(reading(3, &[("code", "1")]));
    assert!(!u.is_checking() && u.state.checked && !u.state.check_failed);
    assert_eq!((u.state.count, u.state.snap_count), (3, 1));
    assert_eq!(u.state.card(), Card::Pending);
    assert!(u.state.can_install());
    u.checked(reading(0, &[("code", "1")]));
    assert_eq!(u.state.card(), Card::SnapsOnly);
    assert!(!u.state.can_install());
    u.checked(reading(0, &[]));
    assert_eq!(u.state.card(), Card::UpToDate);
    // What could not be read is never good news.
    u.checked(blind());
    assert_eq!(u.state.card(), Card::Unknown);
    assert!(u.state.check_failed && u.state.reboot_required);
    assert_eq!(u.state.error, check_error(true, true));
    assert_eq!((u.state.count, u.state.snap_count), (0, 0));
}

#[test]
fn an_install_runs_and_ends() {
    let mut u = UpdatesChecker::new();
    assert!(u.install());
    assert!(u.is_installing() && !u.install() && !u.check());
    assert_eq!(u.state.install_log, strings(&["Requesting administrator access…"]));
    assert_eq!(u.state.card(), Card::Installing);
    u.push_log("x".to_string());
    u.finish(reading(0, &[]), true, None);
    assert_eq!(u.state.card(), Card::Installed { ok: true });
    assert!(u.state.checked && u.state.error.is_none());
    u.dismiss();
    assert!(u.state.install_log.is_empty());
    assert_eq!(u.state.card(), Card::UpToDate);
    assert!(u.refresh_snaps());
    // The run's own message outranks the check's.
    u.finish(blind(), false, Some(refresh_error("")));
    assert_eq!(
        u.state.error.as_deref(),
        Some("Snap refresh did not finish. See the log above.")
    );
    assert_eq!(u.state.card(), Card::Installed { ok: false });
    assert!(u.state.check_failed);
    assert!(u.install());
    u.finish(blind(), true, None);
    assert_eq!(u.state.error, check_error(true, true));
}

#[test]
fn install_errors_say_how_it_ended() {
    assert_eq!(install_error("a\nb\n", &Ok("exit status: 1".to_string())), "b");
    assert_eq!(
        install_error(" ", &Ok("exit status: 100".to_string())),
        "Update did not finish (exit status: 100). See the log above."
    );
    assert_eq!(install_error("", &Err("gone".to_string())), "Update failed to run: gone");
    assert_eq!(refresh_error("x\ny"), "y");
}

#[test]
fn scripts_and_labels_are_fixed() {
    assert_eq!(
        install_script(),
        "apt-get update && DEBIAN_FRONTEND=noninteractive apt-get -y \
         -o Dpkg::Options::=--force-confdef -o Dpkg::Options::=--force-confold \
         dist-upgrade 2>&1"
    );
    assert_eq!(refresh_script(), "snap refresh 2>&1");
    assert_eq!(count_label("Install", 1, "update"), "Install 1 update");
    assert_eq!(count_label("Refresh", 12, "snap"), "Refresh 12 snaps");
}
