use upulse::scan::{
    artifact_delete_allowed, artifact_kind, delete_one_artifact, folder, inner_step, project,
    walk_step, ArtifactKind, DeleteStep, DirFacts, Entry, Scanner, Step, Tally, Walk, ARTIFACT_MIN,
    FLUSH_EVERY, KEEP, KEEP_ARTIFACTS,
};

#[test]
fn artifact_kind_matches_known_names() {
    assert!(matches!(
        artifact_kind("node_modules", || false),
        Some(ArtifactKind::NodeModules)
    ));
    assert!(matches!(
        artifact_kind("__pycache__", || false),
        Some(ArtifactKind::PyCache)
    ));
    assert!(matches!(
        artifact_kind(".venv", || false),
        Some(ArtifactKind::Venv)
    ));
}

#[test]
fn cargo_target_requires_manifest() {
    assert!(matches!(
        artifact_kind("target", || true),
        Some(ArtifactKind::CargoTarget)
    ));
    assert!(artifact_kind("target", || false).is_none());
}

#[test]
fn artifact_kind_rejects_near_misses() {
    assert!(artifact_kind("Target", || true).is_none());
    assert!(artifact_kind("node_modules2", || false).is_none());
    assert!(artifact_kind("venv", || false).is_none());
    assert!(artifact_kind("", || true).is_none());
}

#[test]
fn delete_allowed_happy_paths() {
    assert!(artifact_delete_allowed(
        "/home/u",
        "/home/u/proj/node_modules"
    ));
    assert!(artifact_delete_allowed("/home/u", "/home/u/rs/target"));
}

#[test]
fn delete_allowed_fails_closed() {
    // Relative, outside root, traversal, wrong component, empty root.
    assert!(!artifact_delete_allowed("/home/u", "proj/node_modules"));
    assert!(!artifact_delete_allowed("/home/u", "/etc/node_modules"));
    assert!(!artifact_delete_allowed(
        "/home/u",
        "/home/u/../etc/node_modules"
    ));
    assert!(!artifact_delete_allowed("/home/u", "/home/u/proj/src"));
    assert!(!artifact_delete_allowed("", "/home/u/proj/node_modules"));
}

/// What the standard library's own paths say.
fn by_path(root: &str, path: &str) -> bool {
    let p = std::path::Path::new(path);
    !root.is_empty()
        && p.is_absolute()
        && p.starts_with(root)
        && !p.components().any(|c| matches!(c, std::path::Component::ParentDir))
        && p.file_name()
            .and_then(|n| n.to_str())
            .map(|n| ["node_modules", "__pycache__", ".venv", "target"].contains(&n))
            .unwrap_or(false)
}

#[test]
fn delete_rules_agree_with_the_path_library() {
    let roots = ["", "/", "/home/u", "/home/u/", "//home//u", "/home/./u", "home/u", ".", "/home/u/.."];
    let paths = [
        "/home/u/target", "/home/u/target/", "/home/u/./target", "/home/u//target/.",
        "/home/u/a/../target", "/home/user/target", "/home/u", "/target", "target", "/",
        "/home/u/target/..", "/home/u/.venv", "/home/u/targets", "/home/u/x/__pycache__//",
        "", ".", "/home/u/../u/target",
    ];
    for r in roots {
        for p in paths {
            assert_eq!(artifact_delete_allowed(r, p), by_path(r, p), "{r:?} {p:?}");
        }
    }
}

fn step(root: &str, listed: bool, path: &str, is_dir: Option<Result<bool, String>>, manifest: Option<bool>) -> String {
    match delete_one_artifact(root, listed, path, &DirFacts { is_dir, manifest }) {
        DeleteStep::Refuse(m) => m,
        DeleteStep::Stat => "stat".to_string(),
        DeleteStep::FindManifest => "manifest".to_string(),
        DeleteStep::Remove => "remove".to_string(),
    }
}

#[test]
fn every_check_precedes_a_removal() {
    let t = "/home/u/rs/target";
    let n = "/home/u/js/node_modules";
    assert_eq!(step("/home/u", false, t, None, None), "not in the current scan results");
    assert_eq!(step("/home/u", true, "/etc/target", None, None), "path failed safety checks");
    assert_eq!(step("/home/u", true, t, None, None), "stat");
    assert_eq!(step("/home/u", true, t, Some(Err("gone".to_string())), None), "gone");
    assert_eq!(step("/home/u", true, t, Some(Ok(false)), None), "not a real directory");
    assert_eq!(step("/home/u", true, t, Some(Ok(true)), None), "manifest");
    assert_eq!(
        step("/home/u", true, t, Some(Ok(true)), Some(false)),
        "no Cargo.toml next to this target directory"
    );
    assert_eq!(step("/home/u", true, t, Some(Ok(true)), Some(true)), "remove");
    assert_eq!(step("/home/u", true, n, Some(Ok(true)), None), "remove");
}

fn walk(sizes: &[u64], threshold: u64) -> Walk {
    let mut w = Walk::new(threshold);
    for (i, s) in sizes.iter().enumerate() {
        assert!(w.has_room(1));
        w.file(format!("/home/u/f{i}"), *s);
    }
    w
}

#[test]
fn entries_are_told_apart() {
    let dir = Entry { link: false, directory: true, file: false };
    let file = Entry { link: false, directory: false, file: true };
    let pipe = Entry { link: false, directory: false, file: false };
    assert!(matches!(walk_step(dir, "src", || true), Step::Descend));
    assert!(matches!(walk_step(dir, ".venv", || false), Step::Size(ArtifactKind::Venv)));
    assert!(matches!(walk_step(dir, "target", || true), Step::Size(ArtifactKind::CargoTarget)));
    assert!(matches!(walk_step(dir, "target", || false), Step::Descend));
    assert!(matches!(walk_step(file, "node_modules", || panic!("asked")), Step::Count));
    assert!(matches!(walk_step(pipe, "target", || panic!("asked")), Step::Skip));
    assert!(matches!(inner_step(dir), Step::Descend));
    assert!(matches!(inner_step(file), Step::Count));
    assert!(matches!(inner_step(pipe), Step::Skip));
    for e in [dir, file, pipe] {
        let link = Entry { link: true, ..e };
        assert!(matches!(walk_step(link, "target", || panic!("asked")), Step::Skip));
        assert!(matches!(inner_step(link), Step::Skip));
    }
}

#[test]
fn a_whole_scan_counts_and_keeps_the_largest() {
    let mut w = Walk::new(1000);
    let mut big: Vec<u64> = Vec::new();
    let mut x: u64 = 7;
    for i in 0..5000u64 {
        x = (x * 75 + 74) % 65537;
        w.file(format!("/home/u/{i}"), x);
        if x >= 1000 {
            big.push(x);
        }
        w.flush();
    }
    w.artifact("/home/u/a/target".to_string(), ArtifactKind::CargoTarget, ARTIFACT_MIN, 40);
    w.artifact("/home/u/b/.venv".to_string(), ArtifactKind::Venv, ARTIFACT_MIN - 1, 2);
    let mut s = Scanner::new();
    assert!(s.start("/home/u", 1000));
    s.finish(w);
    assert_eq!(s.state.scanned, 5042);
    assert_eq!(s.state.matches, big.len() as u64);
    big.sort_by(|a, b| b.cmp(a));
    big.truncate(KEEP);
    let kept: Vec<u64> = s.state.top.iter().map(|f| f.size).collect();
    assert_eq!(kept, big);
    assert_eq!(s.state.artifacts.len(), 1);
    assert_eq!(s.state.artifacts[0].path, "/home/u/a/target");
}

#[test]
fn a_scan_keeps_the_largest_files() {
    let mut s = Scanner::new();
    assert_eq!(s.state.threshold, 100 * 1024 * 1024);
    assert_eq!(
        s.state.status(),
        "Scan your home folder to find what's eating disk space."
    );
    assert!(s.start("/home/u", 10));
    assert!(s.is_running() && !s.start("/", 1));
    assert_eq!(
        s.state.status(),
        "Scanning /home/u … 0 files checked, 0 large so far"
    );
    let sizes: Vec<u64> = (0..1000).collect();
    let mut w = walk(&sizes, 10);
    w.artifact("/home/u/a/target".to_string(), ArtifactKind::CargoTarget, ARTIFACT_MIN, 5);
    w.artifact("/home/u/b/.venv".to_string(), ArtifactKind::Venv, ARTIFACT_MIN - 1, 7);
    w.artifact("/home/u/c/node_modules".to_string(), ArtifactKind::NodeModules, ARTIFACT_MIN * 3, 1);
    s.progress(&w);
    assert_eq!(s.state.scanned, 1013);
    assert!(s.is_running());
    s.finish(w);
    assert!(!s.is_running() && s.state.done);
    assert_eq!(s.state.matches, 990);
    assert_eq!(s.state.top.len(), KEEP);
    assert_eq!(s.state.top[0].size, 999);
    assert_eq!(s.state.top[KEEP - 1].size, 999 - (KEEP as u64 - 1));
    let kept: Vec<&str> = s.state.artifacts.iter().map(|a| a.path.as_str()).collect();
    assert_eq!(kept, vec!["/home/u/c/node_modules", "/home/u/a/target"]);
    assert_eq!(
        s.state.status(),
        "Found 990 files ≥ 10 B under /home/u (1013 files scanned)"
    );
    assert!(s.state.artifacts_fit());
    assert_eq!(s.state.artifacts_total(), ARTIFACT_MIN * 4);
}

#[test]
fn equal_sizes_keep_the_order_they_were_found_in() {
    let mut s = Scanner::new();
    assert!(s.start("/home/u", 0));
    s.finish(walk(&[5, 7, 5, 7], 0));
    let order: Vec<&str> = s.state.top.iter().map(|f| f.path.as_str()).collect();
    assert_eq!(order, vec!["/home/u/f1", "/home/u/f3", "/home/u/f0", "/home/u/f2"]);
}

#[test]
fn artifacts_are_capped() {
    let mut s = Scanner::new();
    assert!(s.start("/home/u", 0));
    let mut w = Walk::new(0);
    for i in 0..KEEP_ARTIFACTS as u64 + 5 {
        w.artifact(format!("/home/u/{i}/target"), ArtifactKind::CargoTarget, ARTIFACT_MIN + i, 0);
    }
    s.finish(w);
    assert_eq!(s.state.artifacts.len(), KEEP_ARTIFACTS);
    assert_eq!(s.state.artifacts[0].size, ARTIFACT_MIN + KEEP_ARTIFACTS as u64 + 4);
}

#[test]
fn a_cancelled_scan_is_not_done() {
    let mut s = Scanner::new();
    assert!(s.start("/home/u", 0));
    s.cancel();
    s.finish(walk(&[1], 0));
    assert!(!s.is_running() && !s.state.done);
    assert_eq!(s.state.no_artifacts(), "Run a scan from Large Files to look for them.");
    assert!(s.start("/home/u", 0));
    s.finish(walk(&[1], 0));
    assert!(s.state.done);
    assert_eq!(s.state.no_artifacts(), "None found in the last scan.");
}

#[test]
fn progress_is_shown_now_and_then() {
    let mut w = Walk::new(1);
    assert!(!w.flush());
    for i in 0..FLUSH_EVERY {
        w.file(format!("/f{i}"), 0);
    }
    assert!(w.flush());
    assert!(!w.flush());
    w.artifact("/target".to_string(), ArtifactKind::CargoTarget, 1, FLUSH_EVERY);
    assert!(w.flush());
    assert!(!w.has_room(u64::MAX));
}

#[test]
fn trees_are_counted() {
    let mut t = Tally::new();
    t.count(3);
    t.count(4);
    assert_eq!((t.bytes, t.files), (7, 2));
    assert!(t.has_room(u64::MAX - 7));
    assert!(!t.has_room(u64::MAX - 6));
}

#[test]
fn a_deleted_file_leaves_the_results() {
    let mut s = Scanner::new();
    assert!(s.start("/home/u", 0));
    s.finish(walk(&[5, 7], 0));
    s.delete("/home/u/f0", Some("denied".to_string()));
    assert_eq!(s.state.last_error.as_deref(), Some("Couldn't delete /home/u/f0: denied"));
    assert_eq!(s.state.top.len(), 2);
    s.delete("/home/u/f0", None);
    assert!(s.state.last_error.is_none());
    assert_eq!((s.state.top.len(), s.state.matches), (1, 1));
    s.delete("/home/u/other", None);
    assert_eq!((s.state.top.len(), s.state.matches), (1, 1));
}

#[test]
fn artifacts_leave_one_by_one() {
    let mut s = Scanner::new();
    assert!(s.start("/home/u", 0));
    let paths: Vec<String> = ["a", "b", "c"].iter().map(|d| format!("/home/u/{d}/target")).collect();
    assert!(!s.delete_artifacts(&paths));
    let mut w = Walk::new(0);
    for p in &paths {
        w.artifact(p.clone(), ArtifactKind::CargoTarget, ARTIFACT_MIN, 1);
    }
    s.finish(w);
    assert!(!s.delete_artifacts(&[]));
    assert!(s.delete_artifacts(&paths));
    assert!(s.state.deleting && !s.delete_artifacts(&paths));
    assert_eq!(s.state.no_artifacts(), "Deleting…");
    assert!(s.is_listed(&paths[0]));
    s.artifact_deleted(&paths[0]);
    assert!(!s.is_listed(&paths[0]) && s.is_listed(&paths[1]));
    s.artifacts_done(&[
        (paths[1].clone(), "no".to_string()),
        (paths[2].clone(), "never".to_string()),
    ]);
    assert!(!s.state.deleting);
    assert_eq!(
        s.state.last_error.as_deref(),
        Some("Couldn't delete /home/u/b/target: no (and 1 more failed)")
    );
    assert!(s.delete_artifacts(&paths));
    s.artifacts_done(&[(paths[1].clone(), "no".to_string())]);
    assert_eq!(s.state.last_error.as_deref(), Some("Couldn't delete /home/u/b/target: no"));
    assert!(s.delete_artifacts(&paths));
    s.artifacts_done(&[]);
    assert!(s.state.last_error.is_none());
}

#[test]
fn rows_name_the_project() {
    assert_eq!(folder("/home/u/rs/target"), "/home/u/rs");
    assert_eq!(project("/home/u/rs/target"), "rs");
    assert_eq!(folder("target"), "");
    assert_eq!(project("target"), "target");
    assert_eq!(project("/target"), "/target");
    assert_eq!(ArtifactKind::NodeModules.label(), "Node packages");
    assert_eq!(ArtifactKind::PyCache.label(), "Python cache");
    assert_eq!(ArtifactKind::Venv.label(), "Python venv");
    assert_eq!(ArtifactKind::CargoTarget.label(), "Cargo build");
}
