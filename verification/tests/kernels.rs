use upulse::kernels::{
    base_version, build_kernels, enumerate, is_meta, kver_key, listing_fits, parse_dpkg_rows,
    plan_removal, Kernel, Kernels,
};

fn row(p: &str, st: &str, sz: u64) -> (String, String, u64) {
    (p.to_string(), st.to_string(), sz)
}

fn fixture() -> Vec<(String, String, u64)> {
    vec![
        row("linux-image-6.8.0-45-generic", "ii", 16000),
        row("linux-modules-6.8.0-45-generic", "ii", 158000),
        row("linux-modules-extra-6.8.0-45-generic", "ii", 120000),
        row("linux-headers-6.8.0-45-generic", "ii", 29000),
        row("linux-headers-6.8.0-45", "ii", 27000),
        row("linux-image-6.8.0-9-generic", "ii", 16000),
        row("linux-modules-6.8.0-9-generic", "ii", 158000),
        row("linux-image-6.5.0-21-generic", "rc", 16000), // config-files only
        row("linux-image-generic-hwe-24.04", "ii", 10),   // meta
        row("linux-headers-generic", "ii", 10),           // meta
    ]
}

#[test]
fn groups_versions_and_flags_protection() {
    let ks = build_kernels(&fixture(), "6.8.0-45-generic");
    assert_eq!(ks.len(), 2); // rc row and metas excluded
                             // Newest first.
    assert_eq!(ks[0].version, "6.8.0-45-generic");
    assert!(ks[0].running && ks[0].newest && ks[0].protected);
    assert_eq!(ks[0].packages.len(), 5); // image+modules+extra+headers+headers-base
    assert_eq!(ks[0].size_kb, 16000 + 158000 + 120000 + 29000 + 27000);
    assert_eq!(ks[1].version, "6.8.0-9-generic");
    assert!(!ks[1].running && !ks[1].newest && !ks[1].protected);
    assert_eq!(ks[1].packages.len(), 2);
}

#[test]
fn running_old_kernel_is_still_protected() {
    let ks = build_kernels(&fixture(), "6.8.0-9-generic");
    assert!(ks.iter().all(|k| k.protected)); // running old + newest
}

#[test]
fn single_kernel_machines_have_nothing_removable() {
    let rows = vec![
        row("linux-image-6.8.0-45-generic", "ii", 16000),
        row("linux-modules-6.8.0-45-generic", "ii", 158000),
    ];
    let ks = build_kernels(&rows, "6.8.0-45-generic");
    assert_eq!(ks.len(), 1);
    assert!(ks[0].protected);
}

#[test]
fn numeric_ordering_beats_string_ordering() {
    assert!(kver_key("6.8.0-45-generic") > kver_key("6.8.0-9-generic"));
    assert!(kver_key("6.17.0-1030-oem") > kver_key("6.17.0-1028-oem"));
    assert!(kver_key("6.10.0") > kver_key("6.9.9"));
}

#[test]
fn meta_packages_are_recognised() {
    assert!(is_meta("linux-image-generic"));
    assert!(is_meta("linux-image-generic-hwe-24.04"));
    assert!(is_meta("linux-image-oem-24.04d"));
    assert!(is_meta("linux-headers-generic"));
    assert!(!is_meta("linux-image-6.8.0-45-generic"));
    assert!(!is_meta("linux-headers-6.8.0-45"));
    assert!(!is_meta("bash"));
}

#[test]
fn malformed_and_empty_input_fail_closed() {
    assert!(build_kernels(&[], "6.8.0-45-generic").is_empty());
    // A version carrying shell junk is dropped entirely.
    let rows = vec![row("linux-image-6.8.0-45;rm -rf /", "ii", 1)];
    assert!(build_kernels(&rows, "x").is_empty());
}

const DPKG: &str = "linux-image-6.8.0-45-generic\tii \t16000\n\
                    linux-modules-6.8.0-45-generic\tii \t158000\n\
                    linux-image-6.8.0-9-generic\tii \t15000\n\
                    linux-headers-6.8.0-9\tii \tunknown\n\
                    \tii \t5\n\
                    lonely\n";

fn listing(running: &str) -> Vec<Kernel> {
    match enumerate(Ok(format!("{running}\n")), Ok(DPKG.to_string())) {
        Ok(ks) => ks,
        Err(e) => panic!("{e}"),
    }
}

fn error_of<T>(r: Result<T, String>) -> String {
    match r {
        Ok(_) => panic!("expected an error"),
        Err(e) => e,
    }
}

#[test]
fn dpkg_rows_need_a_name_and_a_status() {
    let rows = parse_dpkg_rows(DPKG);
    assert_eq!(rows.len(), 4);
    assert_eq!(rows[0], row("linux-image-6.8.0-45-generic", "ii", 16000));
    assert_eq!(rows[3], row("linux-headers-6.8.0-9", "ii", 0));
    assert!(listing_fits(DPKG));
}

#[test]
fn a_sum_beyond_the_counter_is_noticed() {
    let out = format!(
        "linux-image-6.8.0-45-generic\tii \t{}\nlinux-modules-6.8.0-45-generic\tii \t1\n",
        u64::MAX
    );
    assert!(!listing_fits(&out));
    // The rows that do not count are no obstacle.
    let out = format!("linux-image-6.8.0-45-generic\tii \t{}\nbash\trc \t1\n", u64::MAX);
    assert!(listing_fits(&out));
}

#[test]
fn kernels_are_listed_newest_first() {
    let ks = listing("6.8.0-9-generic");
    assert_eq!(ks.len(), 2);
    assert_eq!(ks[0].version, "6.8.0-45-generic");
    assert!(ks[0].newest && !ks[0].running && ks[0].protected);
    assert_eq!(ks[1].version, "6.8.0-9-generic");
    assert!(ks[1].running && ks[1].protected);
    assert_eq!(ks[1].packages, vec!["linux-image-6.8.0-9-generic", "linux-headers-6.8.0-9"]);
    assert_eq!(ks[1].size_kb, 15000);
}

#[test]
fn a_listing_says_what_could_not_be_read() {
    assert_eq!(
        error_of(enumerate(Err("gone".to_string()), Ok(DPKG.to_string()))),
        "Couldn't read the running kernel version: gone"
    );
    assert_eq!(
        error_of(enumerate(Ok(" \n".to_string()), Ok(DPKG.to_string()))),
        "Couldn't determine the running kernel."
    );
    assert_eq!(
        error_of(enumerate(Ok("6.8.0\n".to_string()), Err("timed out".to_string()))),
        "Couldn't query installed kernels: timed out"
    );
    assert_eq!(
        error_of(enumerate(Ok("6.8.0\n".to_string()), Ok(String::new()))),
        "No installed kernel packages found."
    );
}

#[test]
fn only_an_unprotected_kernel_can_be_planned_away() {
    let ks = listing("6.8.0-45-generic");
    assert_eq!(
        plan_removal(&ks, "6.8.0-9-generic"),
        Ok("DEBIAN_FRONTEND=noninteractive apt-get -y \
            -o Dpkg::Options::=--force-confdef \
            -o Dpkg::Options::=--force-confold \
            purge linux-image-6.8.0-9-generic linux-headers-6.8.0-9 2>&1"
            .to_string())
    );
    assert_eq!(
        plan_removal(&ks, "6.8.0-45-generic"),
        Err("6.8.0-45-generic is protected (running or newest) and can't be removed.".to_string())
    );
    assert_eq!(plan_removal(&ks, "1.0"), Err("1.0 is not installed.".to_string()));
    let odd = vec![Kernel {
        version: "6.8.0-9-generic".to_string(),
        packages: vec!["bash".to_string()],
        size_kb: 1,
        running: false,
        newest: false,
        protected: false,
    }];
    assert_eq!(
        plan_removal(&odd, "6.8.0-9-generic"),
        Err("Refusing suspicious package: \"bash\"".to_string())
    );
}

#[test]
fn version_keys_are_digit_runs() {
    assert_eq!(kver_key("6.8.0-45-generic"), vec![6, 8, 0, 45]);
    assert_eq!(kver_key("none"), Vec::<u64>::new());
    assert_eq!(kver_key("99999999999999999999999"), vec![u64::MAX]);
    assert_eq!(base_version("6.8.0-45-generic"), "6.8.0-45");
    assert_eq!(base_version("6.8.0-45-generic-hwe"), "6.8.0-45");
    assert_eq!(base_version("6.8.0"), "6.8.0");
}

#[test]
fn equal_keys_are_told_apart_by_name() {
    let rows = vec![
        row("linux-image-6.8.0-9-generic", "ii", 1),
        row("linux-image-6.8.0-9-oem", "ii", 1),
        row("linux-image-6.8.0-9-oem", "ii", 1),
    ];
    let ks = build_kernels(&rows, "other");
    assert_eq!(ks.len(), 2);
    assert_eq!(ks[0].version, "6.8.0-9-oem");
    assert!(ks[0].newest && !ks[1].newest);
    // A row that is listed twice is counted twice.
    assert_eq!(ks[0].packages.len(), 2);
}

#[test]
fn a_failed_listing_leaves_nothing_removable() {
    let mut k = Kernels::new();
    assert!(k.load());
    assert!(k.is_loading() && !k.load() && !k.remove("6.8.0-9-generic"));
    k.loaded(Ok(listing("6.8.0-45-generic")));
    assert_eq!(k.state.kernels.len(), 2);
    assert!(k.state.loaded && !k.is_loading());
    assert!(k.load());
    k.loaded(Err("no".to_string()));
    assert!(k.state.kernels.is_empty());
    assert_eq!(k.state.error.as_deref(), Some("no"));
}

#[test]
fn a_removal_runs_and_ends() {
    let mut k = Kernels::new();
    assert!(k.remove("6.8.0-9-generic"));
    assert!(k.is_busy() && !k.load() && !k.remove("x"));
    assert_eq!(k.state.log, vec!["Checking 6.8.0-9-generic is safe to remove…"]);
    k.refuse("not now".to_string());
    assert!(!k.is_busy() && !k.state.done);
    assert_eq!(k.state.error.as_deref(), Some("not now"));
    assert!(k.remove("6.8.0-9-generic"));
    assert!(k.state.error.is_none());
    k.push_log("Requesting administrator access…".to_string());
    k.removed(Err("gone".to_string()), false, "a\nb\n");
    assert!(k.state.kernels.is_empty() && k.state.done && !k.state.ok);
    assert_eq!(k.state.error.as_deref(), Some("b"));
    k.dismiss();
    assert!(k.state.log.is_empty() && !k.state.done);
    assert!(k.remove("6.8.0-9-generic"));
    k.removed(Ok(listing("6.8.0-45-generic")), true, "ignored");
    assert!(k.state.ok && k.state.error.is_none());
    assert_eq!(k.state.kernels.len(), 2);
    assert!(k.remove("6.8.0-9-generic"));
    k.removed(Ok(Vec::new()), false, " ");
    assert_eq!(
        k.state.error.as_deref(),
        Some("The removal didn't finish. See the log above.")
    );
}

#[test]
fn kernel_rows_say_what_they_hold() {
    let ks = listing("6.8.0-45-generic");
    assert!(ks[0].size_fits());
    assert_eq!(ks[0].detail(), "2 packages  ·  169.9 MB  ·  running  ·  newest");
    assert_eq!(ks[1].detail(), "2 packages  ·  14.6 MB");
    let one = Kernel {
        version: "1".to_string(),
        packages: vec!["linux-image-1".to_string()],
        size_kb: u64::MAX,
        running: false,
        newest: false,
        protected: false,
    };
    assert!(!one.size_fits());
    let one = Kernel { size_kb: 1, ..one };
    assert_eq!(one.detail(), "1 package  ·  1.0 KB");
}
