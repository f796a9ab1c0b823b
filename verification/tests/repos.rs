use upulse::repos::{
    basename, change_error, classify, glob_dir, list_repos, one_line_files, parse_deb822,
    parse_one_line, ppa_from, ppa_in, valid_ppa, valid_source_file, Change, Repo, Repos,
    SourceFile,
};

fn strings(items: &[&str]) -> Vec<String> {
    items.iter().map(|s| s.to_string()).collect()
}

fn source(path: &str, text: &str) -> SourceFile {
    SourceFile { path: path.to_string(), text: text.to_string() }
}

#[test]
fn one_line_entries_are_read() {
    let of = |s: &str| parse_one_line(s);
    assert_eq!(
        of("deb [arch=amd64 signed-by=/k.gpg] https://x.org/apt stable main"),
        Some("https://x.org/apt stable".to_string())
    );
    assert_eq!(of("deb https://x.org/apt"), Some("https://x.org/apt".to_string()));
    assert_eq!(of("deb-src https://x.org/apt stable"), None);
    assert_eq!(of("deb"), None);
    assert_eq!(of("deb [arch=amd64]"), None);
    assert_eq!(of(""), None);
}

#[test]
fn options_are_no_address() {
    let label = |s: &str| parse_one_line(s).unwrap_or_default();
    let three = "deb [arch=amd64 lang=en signed-by=/k.gpg] https://x.io noble main";
    assert_eq!(label(three), "https://x.io noble");
    let four = "deb [arch=amd64 lang=en trusted=yes signed-by=/k.gpg] https://x.io";
    assert_eq!(label(four), "https://x.io");
    assert_eq!(label("deb [ arch=amd64 ] https://x.io noble"), "https://x.io noble");
    assert_eq!(label("deb [arch=amd64] https://x.io noble"), "https://x.io noble");
    // A bracket elsewhere is passed over by itself, and so is one left open.
    assert_eq!(label("deb https://x.io [noble] main"), "https://x.io main");
    assert_eq!(label("deb https://x.io [a b c] noble"), "https://x.io b");
    assert_eq!(label("deb [a] [b] https://x.io noble]"), "https://x.io");
    assert_eq!(label("deb [a x"), "x");
    assert_eq!(label("deb [arch=amd64 https://x.io noble"), "https://x.io noble");
    assert_eq!(parse_one_line("deb [arch=amd64 lang=en signed-by=/k.gpg]"), None);
    let text = "# Example\n\ndeb [arch=amd64 lang=en signed-by=/k.gpg] https://x.io noble main\n";
    let repos = list_repos(&[source("/etc/apt/sources.list.d/x.list", text)], &[]);
    assert_eq!(repos.len(), 1);
    assert_eq!(repos[0].label, "https://x.io noble");
}

#[test]
fn archives_lead_back_to_themselves() {
    let address = |user: &str, name: &str| {
        format!("https://ppa.launchpadcontent.net/{user}/{name}/ubuntu noble")
    };
    for (user, name) in [("user", "name"), ("a.b-c", "d_e"), ("ubuntu", "ppa")] {
        let spec = format!("ppa:{user}/{name}");
        assert!(valid_ppa(&spec));
        assert_eq!(ppa_from(&address(user, name)), Some(spec));
    }
    assert_eq!(ppa_from(&address("launchpadcontent.net", "name")), None);
}

#[test]
fn deb822_blocks_are_read() {
    let text = "Types: deb\nURIs: https://x.org/apt https://mirror\nSuites: noble noble-updates\n\
                \n\
                Types: deb\nURIs: https://off.org\nEnabled: No\n\
                \n\
                # only a comment\n\
                \n\
                uris: https://bare.org\n";
    assert_eq!(parse_deb822(text), strings(&["https://x.org/apt noble", "https://bare.org"]));
    // The last of repeated keys counts.
    assert_eq!(parse_deb822("URIs: a\nURIs: b\nEnabled: no\nEnabled: yes"), strings(&["b"]));
    assert_eq!(parse_deb822("URIs: a\nURIs:\n"), strings(&[]));
}

#[test]
fn personal_archives_are_recognised() {
    assert_eq!(
        ppa_from("https://ppa.launchpadcontent.net/user/name/ubuntu noble"),
        Some("ppa:user/name".to_string())
    );
    assert_eq!(
        ppa_from("http://ppa.launchpad.net/user/name/ubuntu noble"),
        Some("ppa:user/name".to_string())
    );
    assert_eq!(ppa_from("https://ppa.launchpadcontent.net/user"), None);
    assert_eq!(ppa_from("https://ppa.launchpadcontent.net//name/x"), None);
    assert_eq!(ppa_from("https://x.org/apt stable"), None);
    // The case is folded to recognise one, but not to read it.
    assert_eq!(ppa_from("https://PPA.Launchpadcontent.net/user/name"), None);
    assert_eq!(
        ppa_in("ppa.launchpad", "https://launchpad.net/u/n"),
        Some("ppa:u/n".to_string())
    );
}

#[test]
fn archive_names_are_checked() {
    assert!(valid_ppa("ppa:user/name"));
    assert!(valid_ppa("ppa:a.b-c_d/9"));
    assert!(!valid_ppa("user/name"));
    assert!(!valid_ppa("ppa:user"));
    assert!(!valid_ppa("ppa:/name"));
    assert!(!valid_ppa("ppa:user/name/more"));
    assert!(!valid_ppa("ppa:user/na me"));
    assert!(!valid_ppa("ppa:user/$(id)"));
}

#[test]
fn source_files_stay_in_their_directory() {
    assert!(valid_source_file("vscode.list"));
    assert!(valid_source_file("a+b_c-d:e.sources"));
    assert!(!valid_source_file("../x.list"));
    assert!(!valid_source_file("a..b.list"));
    assert!(!valid_source_file("dir/x.list"));
    assert!(!valid_source_file("x.txt"));
    assert!(!valid_source_file("x y.list"));
    assert!(!valid_source_file(""));
}

#[test]
fn directories_are_listed_by_ending() {
    let entries = strings(&["/d/b.list", "/d/a.list", "/d/x.sources", "/d/readme"]);
    assert_eq!(glob_dir(&entries, ".list"), strings(&["/d/a.list", "/d/b.list"]));
    assert_eq!(glob_dir(&entries, ".sources"), strings(&["/d/x.sources"]));
    assert_eq!(
        one_line_files(&entries),
        strings(&["/etc/apt/sources.list", "/d/a.list", "/d/b.list"])
    );
    assert_eq!(basename("/d/a.list"), "a.list");
    assert_eq!(basename("a.list"), "a.list");
    assert_eq!(basename("/d/"), "");
}

fn listing() -> Vec<Repo> {
    list_repos(
        &[
            source("/etc/apt/sources.list", "# base\ndeb http://old.org noble\n"),
            source(
                "/etc/apt/sources.list.d/z.list",
                "deb https://z.org stable\n deb https://Z2.org stable\ndeb https://z.org stable\n",
            ),
            source(
                "/etc/apt/sources.list.d/p.list",
                "deb https://ppa.launchpadcontent.net/u/n/ubuntu noble main\n",
            ),
        ],
        &[
            source(
                "/etc/apt/sources.list.d/ubuntu.sources",
                "URIs: http://mirror.org/ubuntu\nSuites: noble\n",
            ),
            source(
                "/etc/apt/sources.list.d/other.sources",
                "URIs: http://Security.Ubuntu.com/ubuntu\nSuites: noble\n",
            ),
            source("/etc/apt/sources.list.d/a.sources", "URIs: https://a.org\n"),
        ],
    )
}

#[test]
fn sources_are_listed_with_the_protected_ones_last() {
    let r = listing();
    let rows: Vec<(&str, &str, bool)> =
        r.iter().map(|r| (r.label.as_str(), r.file.as_str(), r.protected)).collect();
    assert_eq!(
        rows,
        vec![
            ("https://a.org", "a.sources", false),
            ("https://ppa.launchpadcontent.net/u/n/ubuntu noble", "p.list", false),
            ("https://z.org stable", "z.list", false),
            ("https://Z2.org stable", "z.list", false),
            ("http://mirror.org/ubuntu noble", "ubuntu.sources", true),
            ("http://old.org noble", "sources.list", true),
            ("http://Security.Ubuntu.com/ubuntu noble", "other.sources", true),
        ]
    );
    assert_eq!(r[1].ppa_spec.as_deref(), Some("ppa:u/n"));
    assert_eq!(r[1].primary(), "ppa:u/n");
    assert_eq!(
        r[1].detail(),
        "https://ppa.launchpadcontent.net/u/n/ubuntu noble  ·  p.list"
    );
    assert_eq!(r[0].primary(), "https://a.org");
    assert_eq!(r[0].detail(), "a.sources");
    assert_eq!(r[0].key(), "a.sources|https://a.org");
    let c = classify("x ports.ubuntu.com".to_string(), "f".to_string(), "x ports.ubuntu.com");
    assert!(c.protected && c.ppa_spec.is_none());
}

fn args(c: Change) -> Vec<String> {
    match c {
        Change::Start(a) => a,
        _ => panic!("nothing started"),
    }
}

#[test]
fn archives_are_added_by_name() {
    let mut r = Repos::new();
    assert!(matches!(r.add_ppa("user/name"), Change::Refused));
    assert_eq!(r.state.error.as_deref(), Some("Enter a PPA like ppa:user/name."));
    assert_eq!(
        args(r.add_ppa("  ppa:user/name ")),
        strings(&["add-apt-repository", "-y", "ppa:user/name"])
    );
    assert!(r.is_busy() && r.state.error.is_none());
    assert_eq!(
        r.state.log,
        strings(&["Adding ppa:user/name…", "Requesting administrator access…"])
    );
    assert!(matches!(r.add_ppa("ppa:user/name"), Change::Idle));
    assert!(!r.load());
    r.push_log("line".to_string());
    r.finish(listing(), false, Some(change_error("")));
    assert!(!r.is_busy() && r.state.done && !r.state.ok);
    assert_eq!(
        r.state.error.as_deref(),
        Some("The operation didn't finish. See the log above.")
    );
    r.dismiss();
    assert!(r.state.log.is_empty() && !r.state.done);
    assert_eq!(change_error("a\n b"), " b");
}

#[test]
fn base_sources_are_never_removed() {
    let mut r = Repos::new();
    let l = listing();
    assert!(matches!(r.remove(&l[4], &None), Change::Refused));
    assert_eq!(
        r.state.error.as_deref(),
        Some("That's a base Ubuntu repository and can't be removed here.")
    );
    // A personal archive is removed by name.
    assert_eq!(
        args(r.remove(&l[1], &None)),
        strings(&["add-apt-repository", "-y", "--remove", "ppa:u/n"])
    );
}

#[test]
fn a_file_is_deleted_only_when_it_holds_one_source() {
    let mut r = Repos::new();
    let l = listing();
    // The sources are listed anew before a file goes.
    assert!(matches!(r.remove(&l[0], &None), Change::List));
    assert!(matches!(r.remove(&l[2], &Some(listing())), Change::Refused));
    assert_eq!(
        r.state.error.as_deref(),
        Some("z.list defines other repositories too — edit it manually to remove just this one.")
    );
    let odd = Repo { file: "../x.list".to_string(), ..l[0].clone() };
    assert!(matches!(r.remove(&odd, &Some(listing())), Change::Refused));
    assert_eq!(
        r.state.error.as_deref(),
        Some("Couldn't determine how to remove that source safely.")
    );
    let odd = Repo { ppa_spec: Some("ppa:x".to_string()), ..l[0].clone() };
    assert!(matches!(r.remove(&odd, &Some(listing())), Change::Refused));
    assert_eq!(
        r.state.error.as_deref(),
        Some("Couldn't parse that PPA well enough to remove it safely.")
    );
    assert_eq!(
        args(r.remove(&l[0], &Some(listing()))),
        strings(&["rm", "-f", "/etc/apt/sources.list.d/a.sources"])
    );
    assert_eq!(r.state.log[0], "Removing https://a.org…");
    // A file that turned out to hold a base source stays.
    let mut r = Repos::new();
    let mut changed = listing();
    changed.remove(0);
    changed[3].file = "a.sources".to_string();
    assert!(matches!(r.remove(&l[0], &Some(changed)), Change::Refused));
}

#[test]
fn sources_load_once_at_a_time() {
    let mut r = Repos::new();
    assert!(r.load());
    assert!(r.is_loading() && !r.load());
    assert!(matches!(r.add_ppa("ppa:a/b"), Change::Idle));
    r.loaded(listing());
    assert!(!r.is_loading() && r.state.loaded);
    assert_eq!(r.state.repos.len(), 7);
    r.fail("why");
    assert_eq!(r.state.error.as_deref(), Some("why"));
}
