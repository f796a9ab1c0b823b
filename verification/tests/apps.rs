use upulse::apps::{
    apt_script, is_critical, list_installed, pkg_protected, rank, rank_results, run_error,
    search_repo, size_text, total_fits, valid_pkg, Apps, Pkg, Run, SearchPane, SEARCH_CAP,
};
use upulse::log::LOG_CAP;

fn names(pkgs: &[Pkg]) -> Vec<&str> {
    pkgs.iter().map(|p| p.name.as_str()).collect()
}

fn strings(items: &[&str]) -> Vec<String> {
    items.iter().map(|s| s.to_string()).collect()
}

const DPKG: &str = "ii \tgimp\t20480\tno\toptional\tThe GNU Image Manipulation Program\n\
                    ii \tbash\t1864\tyes\trequired\tGNU Bourne Again SHell\n\
                    rc \told\t99999\tno\toptional\tonly its configuration is left\n\
                    ii \t\t12\tno\toptional\tno name\n\
                    ii \tzsh\t20480\tno\toptional\tshell with\ttabs\n\
                    ii \tvim\tnot-a-number\tno\toptional\teditor\n\
                    ii \tgrub-pc\t100\tno\toptional\tbootloader\n\
                    ii \tlone\n";

#[test]
fn installed_rows_are_read_and_sorted_by_size() {
    assert!(total_fits(DPKG));
    let (pkgs, total) = list_installed(DPKG);
    // Biggest first, equal sizes by name.
    assert_eq!(names(&pkgs), vec!["gimp", "zsh", "bash", "grub-pc", "lone", "vim"]);
    assert_eq!(total, 20480 + 20480 + 1864 + 100);
    assert_eq!(pkgs[1].summary, "shell with\ttabs");
    let protected: Vec<&str> =
        pkgs.iter().filter(|p| p.protected).map(|p| p.name.as_str()).collect();
    assert_eq!(protected, vec!["bash", "grub-pc"]);
}

#[test]
fn a_total_beyond_the_counter_is_noticed() {
    let one = format!("ii \ta\t{}\tno\toptional\tx\n", u64::MAX);
    assert!(total_fits(&one));
    let (_, total) = list_installed(&one);
    assert_eq!(total, u64::MAX);
    let two = format!("{one}ii \tb\t1\tno\toptional\tx\n");
    assert!(!total_fits(&two));
}

#[test]
fn critical_packages_are_recognised() {
    assert!(is_critical("sudo"));
    assert!(is_critical("linux-image-6.8.0-45-generic"));
    assert!(is_critical("libstdc++6"));
    assert!(is_critical("apt-utils"));
    assert!(!is_critical("sudo-rs"));
    assert!(!is_critical("gimp"));
    assert!(!is_critical(""));
}

#[test]
fn protection_fails_closed() {
    // Nothing could be asked: protected.
    assert!(pkg_protected("gimp", &None));
    assert!(!pkg_protected("gimp", &Some("no\toptional".to_string())));
    assert!(pkg_protected("gimp", &Some("yes\toptional".to_string())));
    assert!(pkg_protected("gimp", &Some("\trequired".to_string())));
    assert!(pkg_protected("grub-pc", &Some("no\toptional".to_string())));
}

#[test]
fn package_names_carry_no_shell_syntax() {
    assert!(valid_pkg("libstdc++6:amd64"));
    assert!(valid_pkg("a~b"));
    assert!(valid_pkg("~b"));
    assert!(!valid_pkg(""));
    assert!(!valid_pkg("a b"));
    assert!(!valid_pkg("a;b"));
    assert!(!valid_pkg("ünicode"));
    assert!(valid_pkg(&"a".repeat(199)));
    assert!(!valid_pkg(&"a".repeat(200)));
}

#[test]
fn the_apt_script_joins_the_names() {
    assert_eq!(
        apt_script("remove", &strings(&["gimp", "vim"])),
        "DEBIAN_FRONTEND=noninteractive apt-get -y \
         -o Dpkg::Options::=--force-confdef \
         -o Dpkg::Options::=--force-confold \
         remove gimp vim 2>&1"
    );
}

#[test]
fn ranks_follow_the_name() {
    assert_eq!(rank("vlc", "vlc"), 0);
    assert_eq!(rank("VLC-Plugin", "vlc"), 1);
    assert_eq!(rank("libvlc5", "vlc"), 2);
    assert_eq!(rank("mpv", "vlc"), 3);
}

#[test]
fn search_results_are_ranked() {
    let out = "libvlc5 - library\n\
               mpv - a player like vlc\n\
               vlc-bin - binaries\n\
               not a result\n\
               vlc - the player\n\
               vlc-data - data - and more\n";
    let r = rank_results("vlc", out);
    assert_eq!(names(&r), vec!["vlc", "vlc-bin", "vlc-data", "libvlc5", "mpv"]);
    assert_eq!(r[2].summary, "data - and more");
    // The query is folded to lower case.
    assert_eq!(names(&search_repo("VLC", out)), names(&r));
    // Shorter names come first, then by name.
    let r = rank_results("x", "xbb - s\nxa - s\nxab - s\n");
    assert_eq!(names(&r), vec!["xa", "xab", "xbb"]);
}

#[test]
fn search_results_are_capped() {
    let mut out = String::new();
    for i in 0..SEARCH_CAP + 50 {
        out.push_str(&format!("p{i} - s\n"));
    }
    out.push_str("q - exact match past the cap\n");
    let r = rank_results("q", &out);
    assert_eq!(r.len(), SEARCH_CAP);
    assert!(r.iter().all(|p| p.name != "q"));
}

#[test]
fn loading_starts_once() {
    let mut a = Apps::new();
    assert!(!a.is_loading() && !a.is_busy() && !a.is_searching());
    assert!(a.load_installed());
    assert!(a.is_loading());
    assert!(!a.load_installed());
    let (pkgs, total) = list_installed(DPKG);
    a.installed_loaded(pkgs, total);
    assert!(a.state.loaded && !a.is_loading());
    assert_eq!(a.state.total_size_kb, total);
    assert!(a.state.error.is_none());
    assert!(a.load_installed());
    a.installed_loaded(Vec::new(), 0);
    assert_eq!(
        a.state.error.as_deref(),
        Some("Couldn't read installed packages (is dpkg available?)")
    );
}

#[test]
fn searches_are_trimmed_and_run_one_at_a_time() {
    let mut a = Apps::new();
    assert_eq!(a.state.search_pane(), SearchPane::Prompt);
    assert_eq!(a.search("  \t "), None);
    assert_eq!(a.search("  vlc "), Some("vlc".to_string()));
    assert_eq!(a.state.search_pane(), SearchPane::Searching);
    assert_eq!(a.search("gimp"), None);
    a.search_done(Vec::new());
    assert_eq!(a.state.search_pane(), SearchPane::Nothing);
    assert!(a.search("vlc").is_some());
    a.search_done(rank_results("vlc", "vlc - the player\n"));
    assert_eq!(a.state.search_pane(), SearchPane::Results);
    assert_eq!(a.state.results_line(), "Showing the 1 best matches of 1");
}

fn start_of(r: Run) -> Option<String> {
    match r {
        Run::Start(s) => Some(s),
        _ => None,
    }
}

#[test]
fn a_removal_asks_about_each_package_first() {
    let mut a = Apps::new();
    let pkgs = strings(&["gimp", "vim"]);
    let no = Some("no\toptional".to_string());
    assert!(matches!(a.run_multi("remove", &pkgs, &[]), Run::Ask(0)));
    assert!(matches!(a.run_multi("remove", &pkgs, &[no.clone()]), Run::Ask(1)));
    assert!(!a.is_busy());
    let script = start_of(a.run_multi("remove", &pkgs, &[no.clone(), no.clone()]));
    assert_eq!(script, Some(apt_script("remove", &pkgs)));
    assert!(a.is_busy());
    assert_eq!(a.state.action_title, "Removing 2 packages…");
    assert_eq!(a.state.log, strings(&["Requesting administrator access…"]));
    // While it runs nothing else starts.
    assert!(matches!(a.run("install", "vlc", &[]), Run::Idle));
    assert!(!a.load_installed());
}

#[test]
fn protected_packages_are_refused() {
    let mut a = Apps::new();
    // The name alone decides, so nothing is asked.
    assert!(matches!(a.run("remove", "grub-pc", &[]), Run::Refused));
    assert_eq!(
        a.state.error.as_deref(),
        Some("grub-pc is a protected system package and can't be removed here.")
    );
    assert!(matches!(a.run("remove", "bash", &[Some("yes\trequired".to_string())]), Run::Refused));
    assert!(matches!(a.run("remove", "bash", &[None]), Run::Refused));
    // Installing one is fine.
    assert!(matches!(a.run("install", "grub-pc", &[]), Run::Start(_)));
    assert_eq!(a.state.action_title, "Installing grub-pc…");
    assert!(a.state.error.is_none());
}

#[test]
fn suspicious_names_are_refused() {
    let mut a = Apps::new();
    assert!(matches!(a.run("install", "x; reboot", &[]), Run::Refused));
    assert_eq!(
        a.state.error.as_deref(),
        Some("Refusing to act on suspicious package name: \"x; reboot\"")
    );
    assert!(!a.is_busy());
    // Quoting escapes what is not printable.
    assert!(matches!(a.run("install", "x\n\"", &[]), Run::Refused));
    assert_eq!(
        a.state.error.as_deref(),
        Some("Refusing to act on suspicious package name: \"x\\n\\\"\"")
    );
    assert!(matches!(a.run_multi("install", &[], &[]), Run::Idle));
}

#[test]
fn a_finished_run_keeps_the_old_list_if_the_new_one_is_empty() {
    let mut a = Apps::new();
    let (pkgs, total) = list_installed(DPKG);
    let n = pkgs.len();
    a.installed_loaded(pkgs, total);
    assert!(matches!(a.run("install", "vlc", &[]), Run::Start(_)));
    a.push_log("Reading package lists".to_string());
    assert_eq!(a.state.log.len(), 2);
    a.finish(Vec::new(), 0, false, Some("no".to_string()));
    assert!(!a.is_busy() && a.state.action_done && !a.state.action_ok);
    assert_eq!(a.state.installed.len(), n);
    assert_eq!(a.state.total_size_kb, total);
    assert_eq!(a.state.error.as_deref(), Some("no"));
    a.dismiss();
    assert!(a.state.log.is_empty() && !a.state.action_done);
    let (pkgs, total) = list_installed("ii \tvlc\t5\tno\toptional\tx\n");
    a.finish(pkgs, total, true, None);
    assert_eq!(a.state.installed.len(), 1);
    assert_eq!(a.state.total_size_kb, 5);
    assert!(a.state.action_ok);
}

#[test]
fn the_transcript_stays_bounded() {
    let mut a = Apps::new();
    for i in 0..LOG_CAP + 7 {
        a.push_log(i.to_string());
    }
    assert_eq!(a.state.log.len(), LOG_CAP);
    assert_eq!(a.state.log[0], "7");
}

#[test]
fn run_errors_quote_the_last_line() {
    assert_eq!(run_error("  \n"), "The operation didn't finish. See the log above.");
    assert_eq!(run_error("one\ntwo \n"), "two");
}

#[test]
fn the_installed_list_is_filtered_and_summed_up() {
    let mut a = Apps::new();
    let (pkgs, total) = list_installed(DPKG);
    a.installed_loaded(pkgs, total);
    assert_eq!(a.state.filter(""), vec![0, 1, 2, 3, 4, 5]);
    // Name or summary, whatever the case.
    assert_eq!(a.state.filter("SHELL"), vec![1, 2]);
    assert_eq!(a.state.filter_lower("grub"), vec![3]);
    assert_eq!(
        a.state.summary(2),
        "2 of 6 packages · 41.9 MB total · 2 protected · sorted by size"
    );
    assert!(a.state.is_installed("gimp"));
    assert!(!a.state.is_installed("gim"));
    assert_eq!(a.state.names(), strings(&["gimp", "zsh", "bash", "grub-pc", "lone", "vim"]));
    assert_eq!(size_text(2048), "2.0 MB");
    assert_eq!(size_text(u64::MAX), upulse::theme::fmt_bytes(u64::MAX));
}
