use upulse::startup::{
    action_error, base_text, is_critical_unit, list_services, list_startup, parse_desktop, set_desktop_key,
    set_hidden, valid_desktop_file, valid_unit, Action, DesktopFile, StartupMgr,
};

fn file(name: &str, text: &str) -> DesktopFile {
    DesktopFile { file: name.to_string(), text: text.to_string() }
}

#[test]
fn a_switch_starts_from_the_nearest_copy() {
    let some = |s: &str| Some(s.to_string());
    assert_eq!(base_text(some("user"), some("system")), "user");
    assert_eq!(base_text(some(""), some("system")), "");
    assert_eq!(base_text(None, some("system")), "system");
    assert_eq!(base_text(None, None), "[Desktop Entry]\nType=Application\n");
}

#[test]
fn the_last_write_wins() {
    let name = |text: &str| parse_desktop("a.desktop", text).name;
    for start in ["", "[Desktop Entry]\nName=Old\nExec=x\n"] {
        let once = set_desktop_key(start, "Name", "First");
        assert_eq!(name(&once), "First");
        let twice = set_desktop_key(&once, "Name", "Second");
        assert_eq!(name(&twice), "Second");
        assert_eq!(twice.matches("Name=").count(), 1);
    }
    // With a main group the first value leaves no trace in the text.
    for start in [
        "[Desktop Entry]\nName=Old\nExec=x\n",
        "# top\n[Desktop Entry]\nExec=x\n\n[Desktop Action a]\nName=Other",
        "[Desktop Entry]\r\nName=Old\r\nName=Older\r\nExec=x\r\n",
    ] {
        let once = set_desktop_key(start, "Name", "First\r");
        let twice = set_desktop_key(&once, "Name", "Second");
        assert_eq!(twice, set_desktop_key(start, "Name", "Second"));
    }
    // An empty last line is lost with each write.
    let blank = "[Desktop Entry]\nExec=x\n\n";
    let once = set_desktop_key(blank, "Name", "First");
    assert_eq!(set_desktop_key(blank, "Name", "Second"), "[Desktop Entry]\nName=Second\nExec=x\n");
    assert_eq!(set_desktop_key(&once, "Name", "Second"), "[Desktop Entry]\nName=Second\nExec=x");
}

#[test]
fn desktop_files_are_read() {
    let a = parse_desktop(
        "a.desktop",
        "[Desktop Entry]\nName = Alpha \nName=Second\nComment=x = y\nHidden=false\n",
    );
    assert_eq!((a.name.as_str(), a.comment.as_str(), a.enabled), ("Alpha", "x = y", true));
    let a = parse_desktop("b.desktop", "Hidden=true\n");
    assert_eq!((a.name.as_str(), a.comment.as_str(), a.enabled), ("b.desktop", "", false));
    let a = parse_desktop("c.desktop", "X-GNOME-Autostart-enabled=false\n");
    assert!(!a.enabled);
    // Only the exact words switch one off.
    assert!(parse_desktop("d.desktop", "Hidden=True\nX-GNOME-Autostart-enabled=no\n").enabled);
    assert!(parse_desktop("e.desktop", "").enabled);
}

#[test]
fn own_files_override_the_systems() {
    let system = [
        file("b.desktop", "Name=Beta\n"),
        file("a.desktop", "Name=zulu\n"),
        file("notes.txt", "Name=No\n"),
        file(".desktop", "Name=No\n"),
    ];
    let user = [file("b.desktop", "Name=beta mine\nHidden=true\n"), file("c.desktop", "")];
    let apps = list_startup(&system, &user);
    let rows: Vec<(&str, &str, bool)> =
        apps.iter().map(|a| (a.name.as_str(), a.file.as_str(), a.enabled)).collect();
    assert_eq!(
        rows,
        vec![
            ("beta mine", "b.desktop", false),
            ("c.desktop", "c.desktop", true),
            ("zulu", "a.desktop", true),
        ]
    );
}

#[test]
fn keys_are_set_in_the_main_group_only() {
    let text = "# top\n[Desktop Entry]\nName=X\nHidden=a\nHidden=b\n\n[Desktop Action New]\nHidden=c\n";
    assert_eq!(
        set_desktop_key(text, "Hidden", "true"),
        "# top\n[Desktop Entry]\nName=X\nHidden=true\n\n[Desktop Action New]\nHidden=c"
    );
    assert_eq!(
        set_desktop_key("[Desktop Entry]\nName=X\n", "Hidden", "true"),
        "[Desktop Entry]\nHidden=true\nName=X"
    );
    assert_eq!(set_desktop_key("Name=X\n", "Hidden", "true"), "[Desktop Entry]\nHidden=true\nName=X\n");
    assert_eq!(set_desktop_key("", "K", "v"), "[Desktop Entry]\nK=v\n");
}

#[test]
fn a_switch_is_read_back() {
    for text in ["[Desktop Entry]\nName=X\n", "", "[Desktop Entry]\nHidden=true\n"] {
        for hidden in [true, false] {
            let out = set_hidden(text, hidden);
            assert_eq!(parse_desktop("x.desktop", &out).enabled, !hidden);
        }
    }
    assert_eq!(
        set_hidden("[Desktop Entry]\nType=Application\n", true),
        "[Desktop Entry]\nX-GNOME-Autostart-enabled=false\nHidden=true\nType=Application"
    );
}

const FILES: &str = "cron.service enabled enabled\nssh.service disabled enabled\nodd\n";
const UNITS: &str = "ssh.service loaded inactive dead OpenBSD Secure  Shell server\n\
                     cron.service loaded active running Regular background processing\n\
                     getty@tty1.service loaded active running Getty\n\
                     home.mount loaded active mounted /home\n\
                     Dbus.service loaded active running\n\
                     \n\
                     systemd-logind.service loaded active running Login\n";

#[test]
fn services_are_listed_running_first() {
    let s = list_services(FILES, UNITS);
    let rows: Vec<(&str, bool, bool, bool)> =
        s.iter().map(|s| (s.unit.as_str(), s.active, s.enabled, s.protected)).collect();
    assert_eq!(
        rows,
        vec![
            ("cron.service", true, true, false),
            ("Dbus.service", true, false, false),
            ("systemd-logind.service", true, false, true),
            ("ssh.service", false, false, false),
        ]
    );
    assert_eq!(s[3].description, "OpenBSD Secure Shell server");
    assert_eq!(s[0].detail(), "Regular background processing  ·  starts at boot");
    assert_eq!(s[1].detail(), "");
    assert_eq!(s[3].detail(), "OpenBSD Secure Shell server");
    let bare = list_services("x.service enabled\n", "x.service loaded active running\n");
    assert_eq!(bare[0].detail(), "starts at boot");
}

#[test]
fn critical_units_are_recognised() {
    assert!(is_critical_unit("gdm.service"));
    assert!(is_critical_unit("NetworkManager.service"));
    assert!(is_critical_unit("systemd-resolved.service"));
    assert!(is_critical_unit("dbus-broker.service"));
    assert!(is_critical_unit("user@1000.service"));
    assert!(!is_critical_unit("cron.service"));
    assert!(!is_critical_unit("networkmanager.service"));
}

#[test]
fn names_are_checked() {
    assert!(valid_desktop_file("org.x.Y-z_1+.desktop"));
    assert!(!valid_desktop_file("../x.desktop"));
    assert!(!valid_desktop_file("a/x.desktop"));
    assert!(!valid_desktop_file("a..desktop"));
    assert!(!valid_desktop_file("x.txt"));
    assert!(!valid_desktop_file("a b.desktop"));
    assert!(valid_unit("a@b:c\\x2d_d.service"));
    assert!(!valid_unit("a b"));
    assert!(!valid_unit(""));
    assert!(!valid_unit("x;y"));
}

#[test]
fn a_critical_service_is_not_stopped() {
    let mut m = StartupMgr::new();
    assert_eq!(m.service_action("gdm.service", "stop"), Action::Refused);
    assert_eq!(
        m.state.error.as_deref(),
        Some("gdm.service is a critical system service and can't be stopped here.")
    );
    assert_eq!(m.service_action("bad unit", "stop"), Action::Idle);
    assert_eq!(m.service_action("gdm.service", "start"), Action::Start);
    assert!(m.is_busy() && m.state.error.is_none());
    assert_eq!(m.service_action("cron.service", "stop"), Action::Idle);
    m.service_done(list_services(FILES, UNITS), Some(action_error("x\nlast")));
    assert!(!m.is_busy());
    assert_eq!(m.state.services.len(), 4);
    assert_eq!(m.state.error.as_deref(), Some("last"));
    assert_eq!(action_error("\n"), "The action didn't complete.");
    assert_eq!(m.service_action("cron.service", "stop"), Action::Start);
    m.service_done(Vec::new(), None);
    assert!(m.state.error.is_none());
}

#[test]
fn a_startup_file_is_switched() {
    let mut m = StartupMgr::new();
    assert!(!m.toggle_startup("../x.desktop"));
    assert!(m.load());
    assert!(m.is_loading() && !m.load() && !m.toggle_startup("x.desktop"));
    m.loaded(list_startup(&[file("x.desktop", "")], &[]), list_services(FILES, UNITS));
    assert!(m.state.loaded && m.state.apps.len() == 1);
    assert!(m.toggle_startup("x.desktop"));
    assert!(m.is_busy() && !m.load());
    m.toggled("x.desktop", Vec::new(), Some("denied".to_string()));
    assert_eq!(m.state.error.as_deref(), Some("Couldn't update x.desktop: denied"));
    assert!(m.toggle_startup("x.desktop"));
    m.toggled("x.desktop", Vec::new(), None);
    assert!(m.state.error.is_none() && !m.is_busy());
}

#[test]
fn services_are_filtered() {
    let mut m = StartupMgr::new();
    m.loaded(Vec::new(), list_services(FILES, UNITS));
    assert_eq!(m.state.filter(""), vec![0, 1, 2, 3]);
    assert_eq!(m.state.filter("LOGIN"), vec![2]);
    assert_eq!(m.state.filter_lower("service"), vec![0, 1, 2, 3]);
    assert_eq!(m.state.services_line(1), "1 of 4 services · green = running");
}
