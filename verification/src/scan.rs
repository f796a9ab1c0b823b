//! Large files and build artifacts found in a directory tree, and which of
//! them may be deleted.

use vstd::prelude::*;
use vstd::string::*;

use crate::number::{checked_sum, decimal, law_sum, show, sum_of};
use crate::order::{
    best, law_best, law_best_so_far, law_best_twice, lemma_ranked_weak, order_of, stable_sort,
    Ranked,
};
use crate::repos::{base_of, basename, law_basename};
use crate::text::{
    is_text, kept, last_of, law_kept_in_order, law_last_of, law_split, lemma_kept_ends,
    lemma_kept_step, lemma_prefix_chars, lemma_views_push, listed, opt, read_all, reader, rfind,
    same_text, split, split_by, starts_with, to_chars, to_text, views, LineReader,
};
use crate::theme::{bytes_text, fmt_bytes};

verus! {

/// How many of the largest files are kept.
pub const KEEP: usize = 60;

/// How many of the largest artifact directories are kept.
pub const KEEP_ARTIFACTS: usize = 40;

/// Artifact directories smaller than this are not shown.
pub const ARTIFACT_MIN: u64 = 0x10_0000;

/// How many files are visited between two reports of progress.
pub const FLUSH_EVERY: u64 = 3000;

/// A large file.
pub struct BigFile {
    pub path: String,
    pub size: u64,
}

#[verifier::ext_equal]
pub struct BigFileView {
    pub path: Seq<char>,
    pub size: u64,
}

impl View for BigFile {
    type V = BigFileView;

    open spec fn view(&self) -> BigFileView {
        BigFileView { path: self.path@, size: self.size }
    }
}

impl Clone for BigFile {
    fn clone(&self) -> (r: Self)
        ensures
            r@ == self@,
    {
        BigFile { path: self.path.clone(), size: self.size }
    }
}

impl Ranked for BigFile {
    open spec fn precedes(a: BigFileView, b: BigFileView) -> bool {
        a.size > b.size
    }

    fn before(&self, other: &Self) -> (r: bool) {
        self.size > other.size
    }

    proof fn law_precedes(a: BigFileView, b: BigFileView, c: BigFileView) {
    }
}

/// What a build or dependency directory holds.
#[derive(Clone, Copy, Debug, PartialEq, Eq, Structural)]
pub enum ArtifactKind {
    NodeModules,
    PyCache,
    Venv,
    CargoTarget,
}

/// What a kind is called.
pub open spec fn kind_label(k: ArtifactKind) -> Seq<char> {
    match k {
        ArtifactKind::NodeModules => "Node packages"@,
        ArtifactKind::PyCache => "Python cache"@,
        ArtifactKind::Venv => "Python venv"@,
        ArtifactKind::CargoTarget => "Cargo build"@,
    }
}

impl ArtifactKind {
    pub fn label(self) -> (r: &'static str)
        ensures
            r@ == kind_label(self),
    {
        match self {
            ArtifactKind::NodeModules => "Node packages",
            ArtifactKind::PyCache => "Python cache",
            ArtifactKind::Venv => "Python venv",
            ArtifactKind::CargoTarget => "Cargo build",
        }
    }
}

/// A build or dependency directory, sized as one unit.
pub struct ArtifactDir {
    pub path: String,
    pub size: u64,
    pub kind: ArtifactKind,
}

#[verifier::ext_equal]
pub struct ArtifactView {
    pub path: Seq<char>,
    pub size: u64,
    pub kind: ArtifactKind,
}

impl View for ArtifactDir {
    type V = ArtifactView;

    open spec fn view(&self) -> ArtifactView {
        ArtifactView { path: self.path@, size: self.size, kind: self.kind }
    }
}

impl Clone for ArtifactDir {
    fn clone(&self) -> (r: Self)
        ensures
            r@ == self@,
    {
        ArtifactDir { path: self.path.clone(), size: self.size, kind: self.kind }
    }
}

impl Ranked for ArtifactDir {
    open spec fn precedes(a: ArtifactView, b: ArtifactView) -> bool {
        a.size > b.size
    }

    fn before(&self, other: &Self) -> (r: bool) {
        self.size > other.size
    }

    proof fn law_precedes(a: ArtifactView, b: ArtifactView, c: ArtifactView) {
    }
}

// --- recognising artifacts --------------------------------------------------

/// The directory names that may be artifacts.
pub open spec fn artifact_names() -> Seq<Seq<char>> {
    seq!["node_modules"@, "__pycache__"@, ".venv"@, "target"@]
}

/// What a directory of this name is, given whether a Cargo manifest stands
/// beside it.
pub open spec fn kind_of(name: Seq<char>, manifest: bool) -> Option<ArtifactKind> {
    if name == "node_modules"@ {
        Some(ArtifactKind::NodeModules)
    } else if name == "__pycache__"@ {
        Some(ArtifactKind::PyCache)
    } else if name == ".venv"@ {
        Some(ArtifactKind::Venv)
    } else if name == "target"@ && manifest {
        Some(ArtifactKind::CargoTarget)
    } else {
        None
    }
}

/// Classifies a directory name. Whether a Cargo manifest stands beside it is
/// asked only where the name leaves it open.
pub fn artifact_kind(name: &str, has_cargo_toml: impl FnOnce() -> bool) -> (r: Option<ArtifactKind>)
    requires
        has_cargo_toml.requires(()),
    ensures
        name@ != "target"@ ==> r == kind_of(name@, false),
        name@ == "target"@ ==> exists|manifest: bool| #[trigger]
            has_cargo_toml.ensures((), manifest) && r == kind_of(name@, manifest),
{
    let n = to_chars(name);
    proof {
        lemma_names_differ();
    }
    if is_text(&n, "node_modules") {
        Some(ArtifactKind::NodeModules)
    } else if is_text(&n, "__pycache__") {
        Some(ArtifactKind::PyCache)
    } else if is_text(&n, ".venv") {
        Some(ArtifactKind::Venv)
    } else if is_text(&n, "target") {
        let manifest = has_cargo_toml();
        if manifest {
            Some(ArtifactKind::CargoTarget)
        } else {
            None
        }
    } else {
        None
    }
}

proof fn lemma_names_differ()
    ensures
        "target"@ != "node_modules"@,
        "target"@ != "__pycache__"@,
        "target"@ != ".venv"@,
{
    reveal_strlit("node_modules");
    reveal_strlit("__pycache__");
    reveal_strlit(".venv");
    reveal_strlit("target");
    assert("target"@.len() == 6 && "node_modules"@.len() == 12 && "__pycache__"@.len() == 11);
}

/// Only the listed names are ever artifacts.
pub proof fn law_artifacts_are_listed(name: Seq<char>, manifest: bool)
    ensures
        kind_of(name, manifest) is Some ==> artifact_names().contains(name),
        kind_of("target"@, false) is None,
{
    lemma_names_differ();
    let a = artifact_names();
    assert(a[0] == "node_modules"@ && a[1] == "__pycache__"@ && a[2] == ".venv"@ && a[3]
        == "target"@);
}

// --- paths ------------------------------------------------------------------

/// Reads a part of a path that names something.
pub struct PathPart;

impl LineReader for PathPart {
    type Row = String;

    open spec fn row_of(part: Seq<char>) -> Option<Seq<char>> {
        if part.len() == 0 || part == "."@ {
            None
        } else {
            Some(part)
        }
    }

    fn read(part: &[char]) -> (r: Option<String>) {
        if part.len() == 0 || is_text(part, ".") {
            None
        } else {
            Some(to_text(part))
        }
    }
}

/// The components of a path, without empty ones and references to the
/// directory itself.
pub open spec fn parts_of(path: Seq<char>) -> Seq<Seq<char>> {
    kept(split_by(path, "/"@), reader::<PathPart>())
}

fn parts(path: &[char]) -> (r: Vec<String>)
    ensures
        views(r@) == parts_of(path@),
{
    proof {
        reveal_strlit("/");
    }
    let segments = split(path, "/");
    read_all::<PathPart>(&segments)
}

/// Whether a directory may be deleted: an absolute path under the scanned
/// root, without a step upwards, whose last component is an artifact name.
pub open spec fn deletable(root: Seq<char>, path: Seq<char>) -> bool {
    let p = parts_of(path);
    &&& "/"@.is_prefix_of(root)
    &&& "/"@.is_prefix_of(path)
    &&& parts_of(root).is_prefix_of(p)
    &&& !p.contains(".."@)
    &&& p.len() > 0
    &&& artifact_names().contains(p.last())
}

fn begins_with(p: &[String], root: &[String]) -> (r: bool)
    ensures
        r == views(root@).is_prefix_of(views(p@)),
{
    if p.len() < root.len() {
        return false;
    }
    let mut i: usize = 0;
    while i < root.len()
        invariant
            i <= root@.len() <= p@.len(),
            forall|k: int| 0 <= k < i ==> views(root@)[k] == views(p@)[k],
        decreases root@.len() - i,
    {
        assert(views(root@)[i as int] == root@[i as int]@);
        assert(views(p@)[i as int] == p@[i as int]@);
        if !same_text(p[i].as_str(), root[i].as_str()) {
            assert(views(p@).subrange(0, root@.len() as int)[i as int] == views(p@)[i as int]);
            return false;
        }
        i += 1;
    }
    assert(views(root@) =~= views(p@).subrange(0, root@.len() as int));
    true
}

fn has_part(p: &[String], name: &str) -> (r: bool)
    ensures
        r == views(p@).contains(name@),
{
    let mut i: usize = 0;
    while i < p.len()
        invariant
            i <= p@.len(),
            forall|k: int| 0 <= k < i ==> views(p@)[k] != name@,
        decreases p@.len() - i,
    {
        assert(views(p@)[i as int] == p@[i as int]@);
        if same_text(p[i].as_str(), name) {
            return true;
        }
        i += 1;
    }
    false
}

pub fn artifact_delete_allowed(root: &str, path: &str) -> (r: bool)
    ensures
        r == deletable(root@, path@),
{
    let rc = to_chars(root);
    let pc = to_chars(path);
    if !starts_with(&rc, "/") || !starts_with(&pc, "/") {
        return false;
    }
    let rp = parts(&rc);
    let pp = parts(&pc);
    if !begins_with(&pp, &rp) || has_part(&pp, "..") || pp.len() == 0 {
        return false;
    }
    let names = vec!["node_modules", "__pycache__", ".venv", "target"];
    assert(views(names@) =~= artifact_names());
    assert(views(pp@).last() == pp@.last()@);
    let last = to_chars(pp[pp.len() - 1].as_str());
    listed(&last, &names)
}

/// What may be deleted lies below the scanned root and is itself an artifact;
/// without a root nothing may be.
pub proof fn law_delete_stays_inside(root: Seq<char>, path: Seq<char>)
    ensures
        deletable(root, path) ==> {
            &&& parts_of(path).len() >= parts_of(root).len()
            &&& parts_of(path).take(parts_of(root).len() as int) == parts_of(root)
            &&& !parts_of(path).contains(".."@)
            &&& artifact_names().contains(parts_of(path).last())
        },
        root.len() == 0 ==> !deletable(root, path),
{
    reveal_strlit("/");
    if deletable(root, path) {
        assert(parts_of(path).take(parts_of(root).len() as int) =~= parts_of(path).subrange(
            0,
            parts_of(root).len() as int,
        ));
    }
}

/// What is known of a directory that is to be deleted.
pub struct DirFacts {
    /// Whether it is a directory and no link, or why that is not known.
    pub is_dir: Option<Result<bool, String>>,
    /// Whether a Cargo manifest stands beside it.
    pub manifest: Option<bool>,
}

/// The next step of a deletion.
pub enum DeleteStepView {
    Refuse(Seq<char>),
    /// Find out whether the path is a directory and no link.
    Stat,
    /// Find out whether a Cargo manifest stands beside the directory.
    FindManifest,
    Remove,
}

/// What comes next in the deletion of a path.
pub open spec fn delete_step(
    root: Seq<char>,
    listed: bool,
    path: Seq<char>,
    is_dir: Option<Result<bool, Seq<char>>>,
    manifest: Option<bool>,
) -> DeleteStepView {
    if !listed {
        DeleteStepView::Refuse("not in the current scan results"@)
    } else if !deletable(root, path) {
        DeleteStepView::Refuse("path failed safety checks"@)
    } else {
        match is_dir {
            None => DeleteStepView::Stat,
            Some(Err(e)) => DeleteStepView::Refuse(e),
            Some(Ok(false)) => DeleteStepView::Refuse("not a real directory"@),
            Some(Ok(true)) => if parts_of(path).last() != "target"@ {
                DeleteStepView::Remove
            } else {
                match manifest {
                    None => DeleteStepView::FindManifest,
                    Some(true) => DeleteStepView::Remove,
                    Some(false) => DeleteStepView::Refuse(
                        "no Cargo.toml next to this target directory"@,
                    ),
                }
            },
        }
    }
}

/// The next step of a deletion.
pub enum DeleteStep {
    Refuse(String),
    Stat,
    FindManifest,
    Remove,
}

impl View for DeleteStep {
    type V = DeleteStepView;

    open spec fn view(&self) -> DeleteStepView {
        match *self {
            DeleteStep::Refuse(m) => DeleteStepView::Refuse(m@),
            DeleteStep::Stat => DeleteStepView::Stat,
            DeleteStep::FindManifest => DeleteStepView::FindManifest,
            DeleteStep::Remove => DeleteStepView::Remove,
        }
    }
}

/// The view of what is known of a directory.
pub open spec fn dir_view(r: Option<Result<bool, String>>) -> Option<Result<bool, Seq<char>>> {
    match r {
        None => None,
        Some(Ok(b)) => Some(Ok(b)),
        Some(Err(e)) => Some(Err(e@)),
    }
}

/// Decides the next step of a deletion from what is known so far.
pub fn delete_one_artifact(root: &str, listed: bool, path: &str, facts: &DirFacts) -> (r: DeleteStep)
    ensures
        r@ == delete_step(root@, listed, path@, dir_view(facts.is_dir), facts.manifest),
{
    if !listed {
        return DeleteStep::Refuse("not in the current scan results".to_owned());
    }
    if !artifact_delete_allowed(root, path) {
        return DeleteStep::Refuse("path failed safety checks".to_owned());
    }
    match &facts.is_dir {
        None => {
            return DeleteStep::Stat;
        },
        Some(Err(e)) => {
            return DeleteStep::Refuse(e.as_str().to_owned());
        },
        Some(Ok(is_dir)) => {
            if !*is_dir {
                return DeleteStep::Refuse("not a real directory".to_owned());
            }
        },
    }
    let pc = to_chars(path);
    let pp = parts(&pc);
    assert(views(pp@).last() == pp@.last()@);
    if !same_text(pp[pp.len() - 1].as_str(), "target") {
        return DeleteStep::Remove;
    }
    match facts.manifest {
        None => DeleteStep::FindManifest,
        Some(true) => DeleteStep::Remove,
        Some(false) => DeleteStep::Refuse("no Cargo.toml next to this target directory".to_owned()),
    }
}

/// Nothing is removed that was not found by the scan, lies outside its root,
/// is no real directory, or is a `target` without its manifest.
pub proof fn law_removal_fails_closed(
    root: Seq<char>,
    listed: bool,
    path: Seq<char>,
    is_dir: Option<Result<bool, Seq<char>>>,
    manifest: Option<bool>,
)
    requires
        delete_step(root, listed, path, is_dir, manifest) is Remove,
    ensures
        listed,
        deletable(root, path),
        is_dir == Some(Ok::<bool, Seq<char>>(true)),
        parts_of(path).last() == "target"@ ==> manifest == Some(true),
{
}

// --- walking ----------------------------------------------------------------

/// What is known of an entry of a directory.
#[derive(Clone, Copy)]
pub struct Entry {
    /// A link, whatever it leads to.
    pub link: bool,
    pub directory: bool,
    pub file: bool,
}

/// What a walk does with an entry.
pub enum Step {
    Skip,
    /// A directory to walk through.
    Descend,
    /// An artifact directory, taken as a whole.
    Size(ArtifactKind),
    /// A file to count.
    Count,
}

/// What a walk does with an entry of this name, given whether a Cargo manifest
/// stands beside it. Links are passed over.
pub open spec fn step_of(e: Entry, name: Seq<char>, manifest: bool) -> Step {
    if e.link {
        Step::Skip
    } else if e.directory {
        match kind_of(name, manifest) {
            Some(kind) => Step::Size(kind),
            None => Step::Descend,
        }
    } else if e.file {
        Step::Count
    } else {
        Step::Skip
    }
}

/// What is done with an entry inside an artifact directory.
pub open spec fn inner_step_of(e: Entry) -> Step {
    if e.link {
        Step::Skip
    } else if e.directory {
        Step::Descend
    } else if e.file {
        Step::Count
    } else {
        Step::Skip
    }
}

/// Decides what a walk does with an entry. Whether a Cargo manifest stands
/// beside it is asked only of a directory whose name leaves it open.
pub fn walk_step(e: Entry, name: &str, has_cargo_toml: impl FnOnce() -> bool) -> (r: Step)
    requires
        has_cargo_toml.requires(()),
    ensures
        e.link || !e.directory || name@ != "target"@ ==> r == step_of(e, name@, false),
        !e.link && e.directory && name@ == "target"@ ==> exists|manifest: bool| #[trigger]
            has_cargo_toml.ensures((), manifest) && r == step_of(e, name@, manifest),
{
    if e.link {
        Step::Skip
    } else if e.directory {
        match artifact_kind(name, has_cargo_toml) {
            Some(kind) => Step::Size(kind),
            None => Step::Descend,
        }
    } else if e.file {
        Step::Count
    } else {
        Step::Skip
    }
}

/// Decides what is done with an entry inside an artifact directory.
pub fn inner_step(e: Entry) -> (r: Step)
    ensures
        r == inner_step_of(e),
{
    if e.link {
        Step::Skip
    } else if e.directory {
        Step::Descend
    } else if e.file {
        Step::Count
    } else {
        Step::Skip
    }
}

/// No link is ever followed or counted, and no artifact directory is walked
/// through, so none of its files is listed on its own.
pub proof fn law_walk_stays_apart(e: Entry, name: Seq<char>, manifest: bool)
    ensures
        e.link ==> step_of(e, name, manifest) is Skip && inner_step_of(e) is Skip,
        step_of(e, name, manifest) is Descend ==> kind_of(name, manifest) is None,
        !e.link && e.directory && kind_of(name, manifest) is Some ==> step_of(e, name, manifest)
            == Step::Size(kind_of(name, manifest)->0),
{
}

/// The largest files of some.
pub open spec fn largest(files: Seq<BigFileView>) -> Seq<BigFileView> {
    best(files, order_of::<BigFile>(), KEEP as nat)
}

/// The largest directories of some.
pub open spec fn largest_dirs(dirs: Seq<ArtifactView>) -> Seq<ArtifactView> {
    best(dirs, order_of::<ArtifactDir>(), KEEP_ARTIFACTS as nat)
}

fn sort_trim(files: Vec<BigFile>) -> (r: Vec<BigFile>)
    ensures
        views(r@) == largest(views(files@)),
{
    let mut v = stable_sort(files);
    let ghost s = views(v@);
    if v.len() > KEEP {
        v.truncate(KEEP);
        assert(views(v@) =~= s.take(KEEP as int));
    }
    v
}

fn sort_trim_dirs(dirs: Vec<ArtifactDir>) -> (r: Vec<ArtifactDir>)
    ensures
        views(r@) == largest_dirs(views(dirs@)),
{
    let mut v = stable_sort(dirs);
    let ghost s = views(v@);
    if v.len() > KEEP_ARTIFACTS {
        v.truncate(KEEP_ARTIFACTS);
        assert(views(v@) =~= s.take(KEEP_ARTIFACTS as int));
    }
    v
}

fn copy_files(files: &[BigFile]) -> (r: Vec<BigFile>)
    ensures
        views(r@) == views(files@),
{
    let mut r: Vec<BigFile> = Vec::new();
    let mut i: usize = 0;
    while i < files.len()
        invariant
            i <= files@.len(),
            r@.len() == i,
            forall|k: int| 0 <= k < i ==> (#[trigger] r@[k])@ == files@[k]@,
        decreases files@.len() - i,
    {
        r.push(files[i].clone());
        i += 1;
    }
    assert(views(r@) =~= views(files@));
    r
}

fn copy_dirs(dirs: &[ArtifactDir]) -> (r: Vec<ArtifactDir>)
    ensures
        views(r@) == views(dirs@),
{
    let mut r: Vec<ArtifactDir> = Vec::new();
    let mut i: usize = 0;
    while i < dirs.len()
        invariant
            i <= dirs@.len(),
            r@.len() == i,
            forall|k: int| 0 <= k < i ==> (#[trigger] r@[k])@ == dirs@[k]@,
        decreases dirs@.len() - i,
    {
        r.push(dirs[i].clone());
        i += 1;
    }
    assert(views(r@) =~= views(dirs@));
    r
}

/// What a walk has found so far.
pub struct Walk {
    pub threshold: u64,
    pub scanned: u64,
    pub matches: u64,
    pub since_flush: u64,
    pub top: Vec<BigFile>,
    pub artifacts: Vec<ArtifactDir>,
}

#[verifier::ext_equal]
pub struct WalkView {
    pub threshold: u64,
    pub scanned: nat,
    pub matches: nat,
    pub since_flush: nat,
    pub top: Seq<BigFileView>,
    pub artifacts: Seq<ArtifactView>,
}

impl View for Walk {
    type V = WalkView;

    open spec fn view(&self) -> WalkView {
        WalkView {
            threshold: self.threshold,
            scanned: self.scanned as nat,
            matches: self.matches as nat,
            since_flush: self.since_flush as nat,
            top: views(self.top@),
            artifacts: views(self.artifacts@),
        }
    }
}

/// The files held once one more was found: cut back to the largest when there
/// are many.
pub open spec fn held(top: Seq<BigFileView>, f: BigFileView) -> Seq<BigFileView> {
    if top.push(f).len() > KEEP * 4 {
        largest(top.push(f))
    } else {
        top.push(f)
    }
}

/// The files held after some were found.
pub open spec fn held_after(files: Seq<BigFileView>) -> Seq<BigFileView>
    decreases files.len(),
{
    if files.len() == 0 {
        Seq::empty()
    } else {
        held(held_after(files.drop_last()), files.last())
    }
}

impl WalkView {
    /// The counts stay consistent and within their type.
    pub open spec fn wf(self) -> bool {
        &&& self.matches <= self.scanned <= u64::MAX
        &&& self.since_flush <= self.scanned
    }

    /// Nothing visited yet.
    pub open spec fn start(threshold: u64) -> WalkView {
        WalkView {
            threshold,
            scanned: 0,
            matches: 0,
            since_flush: 0,
            top: Seq::empty(),
            artifacts: Seq::empty(),
        }
    }

    /// One file visited.
    pub open spec fn visited(self, f: BigFileView) -> WalkView {
        let big = f.size >= self.threshold;
        WalkView {
            scanned: self.scanned + 1,
            since_flush: self.since_flush + 1,
            matches: if big {
                self.matches + 1
            } else {
                self.matches
            },
            top: if big {
                held(self.top, f)
            } else {
                self.top
            },
            ..self
        }
    }

    /// Progress reported, where it was due.
    pub open spec fn reported(self) -> WalkView {
        WalkView {
            since_flush: if self.since_flush >= FLUSH_EVERY {
                0
            } else {
                self.since_flush
            },
            ..self
        }
    }

    /// One artifact directory visited, with the files in it.
    pub open spec fn sized(self, a: ArtifactView, files: nat) -> WalkView {
        WalkView {
            scanned: self.scanned + files,
            since_flush: self.since_flush + files,
            artifacts: if a.size >= ARTIFACT_MIN {
                self.artifacts.push(a)
            } else {
                self.artifacts
            },
            ..self
        }
    }
}

impl Walk {
    pub fn new(threshold: u64) -> (r: Self)
        ensures
            r@ == WalkView::start(threshold),
            r@.wf(),
    {
        let r = Walk {
            threshold,
            scanned: 0,
            matches: 0,
            since_flush: 0,
            top: Vec::new(),
            artifacts: Vec::new(),
        };
        assert(r@ =~= WalkView::start(threshold));
        r
    }

    /// Whether so many more files can be counted.
    pub fn has_room(&self, files: u64) -> (r: bool)
        ensures
            r == (self@.scanned + files <= u64::MAX),
    {
        files <= u64::MAX - self.scanned
    }

    /// Takes in a visited file.
    pub fn file(&mut self, path: String, size: u64)
        requires
            old(self)@.wf(),
            old(self)@.scanned < u64::MAX,
        ensures
            final(self)@ == old(self)@.visited(BigFileView { path: path@, size }),
            final(self)@.wf(),
    {
        broadcast use lemma_views_push;

        self.scanned += 1;
        self.since_flush += 1;
        if size >= self.threshold {
            self.matches += 1;
            let mut top: Vec<BigFile> = Vec::new();
            std::mem::swap(&mut top, &mut self.top);
            top.push(BigFile { path, size });
            self.top = if top.len() > KEEP * 4 {
                sort_trim(top)
            } else {
                top
            };
        }
    }

    /// Takes in an artifact directory with its size and the files in it.
    pub fn artifact(&mut self, path: String, kind: ArtifactKind, size: u64, files: u64)
        requires
            old(self)@.wf(),
            old(self)@.scanned + files <= u64::MAX,
        ensures
            final(self)@ == old(self)@.sized(ArtifactView { path: path@, size, kind }, files as nat),
            final(self)@.wf(),
    {
        broadcast use lemma_views_push;

        self.scanned += files;
        self.since_flush += files;
        if size >= ARTIFACT_MIN {
            self.artifacts.push(ArtifactDir { path, size, kind });
        }
    }

    /// Whether progress is due to be reported.
    pub fn flush(&mut self) -> (due: bool)
        ensures
            due == (old(self)@.since_flush >= FLUSH_EVERY),
            final(self)@ == old(self)@.reported(),
            old(self)@.wf() ==> final(self)@.wf(),
    {
        if self.since_flush >= FLUSH_EVERY {
            self.since_flush = 0;
            true
        } else {
            false
        }
    }
}

/// Cutting the files back along the way loses none of the largest.
pub proof fn law_walk_keeps_largest(files: Seq<BigFileView>)
    ensures
        largest(held_after(files)) == largest(files),
    decreases files.len(),
{
    let lt = order_of::<BigFile>();
    lemma_ranked_weak::<BigFile>();
    if files.len() > 0 {
        let early = files.drop_last();
        let f = files.last();
        law_walk_keeps_largest(early);
        law_best_so_far(held_after(early), early, f, lt, KEEP as nat);
        assert(early.push(f) =~= files);
        law_best_twice(held_after(early).push(f), lt, KEEP as nat);
    }
}

/// What a walk comes by.
pub enum Visit {
    File(BigFileView),
    /// An artifact directory, and how many files are in it.
    Artifact(ArtifactView, nat),
    /// A chance to report progress.
    Pause,
}

/// A walk after some visits.
pub open spec fn walked(threshold: u64, visits: Seq<Visit>) -> WalkView
    decreases visits.len(),
{
    if visits.len() == 0 {
        WalkView::start(threshold)
    } else {
        let w = walked(threshold, visits.drop_last());
        match visits.last() {
            Visit::File(f) => w.visited(f),
            Visit::Artifact(a, files) => w.sized(a, files),
            Visit::Pause => w.reported(),
        }
    }
}

/// The visited files of at least the threshold, in order.
pub open spec fn files_found(threshold: u64, visits: Seq<Visit>) -> Seq<BigFileView>
    decreases visits.len(),
{
    if visits.len() == 0 {
        Seq::empty()
    } else {
        let early = files_found(threshold, visits.drop_last());
        match visits.last() {
            Visit::File(f) => if f.size >= threshold {
                early.push(f)
            } else {
                early
            },
            _ => early,
        }
    }
}

/// The visited artifact directories that are large enough to show, in order.
pub open spec fn dirs_found(visits: Seq<Visit>) -> Seq<ArtifactView>
    decreases visits.len(),
{
    if visits.len() == 0 {
        Seq::empty()
    } else {
        let early = dirs_found(visits.drop_last());
        match visits.last() {
            Visit::Artifact(a, _) => if a.size >= ARTIFACT_MIN {
                early.push(a)
            } else {
                early
            },
            _ => early,
        }
    }
}

/// How many files were visited, those in artifact directories included.
pub open spec fn files_visited(visits: Seq<Visit>) -> nat
    decreases visits.len(),
{
    if visits.len() == 0 {
        0
    } else {
        let early = files_visited(visits.drop_last());
        match visits.last() {
            Visit::File(_) => early + 1,
            Visit::Artifact(_, files) => early + files,
            Visit::Pause => early,
        }
    }
}

/// Whatever a walk comes by, and however often it reports, it counts every
/// file and every file of at least the threshold, and shows the largest of
/// those and of the artifact directories.
pub proof fn law_scan_result(threshold: u64, visits: Seq<Visit>, s: ScanView)
    ensures
        ({
            let w = walked(threshold, visits);
            let files = files_found(threshold, visits);
            &&& w.scanned == files_visited(visits)
            &&& w.matches == files.len()
            &&& w.top == held_after(files)
            &&& w.artifacts == dirs_found(visits)
            &&& files_visited(visits) <= u64::MAX ==> w.wf()
            &&& s.found(w).top == largest(files)
            &&& s.found(w).artifacts == largest_dirs(dirs_found(visits))
        }),
{
    lemma_walked(threshold, visits);
    law_walk_keeps_largest(files_found(threshold, visits));
}

proof fn lemma_walked(threshold: u64, visits: Seq<Visit>)
    ensures
        ({
            let w = walked(threshold, visits);
            let files = files_found(threshold, visits);
            &&& w.threshold == threshold
            &&& w.scanned == files_visited(visits)
            &&& w.matches == files.len() <= w.scanned
            &&& w.since_flush <= w.scanned
            &&& w.top == held_after(files)
            &&& w.artifacts == dirs_found(visits)
        }),
    decreases visits.len(),
{
    if visits.len() > 0 {
        let early = visits.drop_last();
        lemma_walked(threshold, early);
        let before = files_found(threshold, early);
        if let Visit::File(f) = visits.last() {
            assert(before.push(f).drop_last() =~= before);
        }
    }
}

/// A tree's total size and file count.
pub struct Tally {
    pub bytes: u64,
    pub files: u64,
}

impl Tally {
    pub fn new() -> (r: Self)
        ensures
            r.bytes == 0,
            r.files == 0,
    {
        Tally { bytes: 0, files: 0 }
    }

    /// Whether a file of this size can be counted.
    pub fn has_room(&self, size: u64) -> (r: bool)
        ensures
            r == (self.bytes + size <= u64::MAX && self.files < u64::MAX),
    {
        size <= u64::MAX - self.bytes && self.files < u64::MAX
    }

    /// Counts a file.
    pub fn count(&mut self, size: u64)
        requires
            old(self).bytes + size <= u64::MAX,
            old(self).files < u64::MAX,
        ensures
            final(self).bytes == old(self).bytes + size,
            final(self).files == old(self).files + 1,
    {
        self.bytes += size;
        self.files += 1;
    }
}

// --- state ------------------------------------------------------------------

/// What the scan cards show.
pub struct Scan {
    pub running: bool,
    pub done: bool,
    /// Artifacts are being deleted.
    pub deleting: bool,
    pub scanned: u64,
    pub matches: u64,
    pub top: Vec<BigFile>,
    pub artifacts: Vec<ArtifactDir>,
    pub root: String,
    pub threshold: u64,
    pub last_error: Option<String>,
}

#[verifier::ext_equal]
pub struct ScanView {
    pub running: bool,
    pub done: bool,
    pub deleting: bool,
    pub scanned: u64,
    pub matches: u64,
    pub top: Seq<BigFileView>,
    pub artifacts: Seq<ArtifactView>,
    pub root: Seq<char>,
    pub threshold: u64,
    pub last_error: Option<Seq<char>>,
}

impl View for Scan {
    type V = ScanView;

    open spec fn view(&self) -> ScanView {
        ScanView {
            running: self.running,
            done: self.done,
            deleting: self.deleting,
            scanned: self.scanned,
            matches: self.matches,
            top: views(self.top@),
            artifacts: views(self.artifacts@),
            root: self.root@,
            threshold: self.threshold,
            last_error: opt(self.last_error),
        }
    }
}

impl ScanView {
    /// Nothing scanned; files from 100 MiB on would be reported.
    pub open spec fn initial() -> ScanView {
        ScanView {
            running: false,
            done: false,
            deleting: false,
            scanned: 0,
            matches: 0,
            top: Seq::empty(),
            artifacts: Seq::empty(),
            root: Seq::empty(),
            threshold: 104_857_600,
            last_error: None,
        }
    }

    /// With what a walk has found.
    pub open spec fn found(self, w: WalkView) -> ScanView {
        ScanView {
            scanned: w.scanned as u64,
            matches: w.matches as u64,
            top: largest(w.top),
            artifacts: largest_dirs(w.artifacts),
            ..self
        }
    }
}

impl Default for Scan {
    fn default() -> (r: Self)
        ensures
            r@ == ScanView::initial(),
    {
        let r = Scan {
            running: false,
            done: false,
            deleting: false,
            scanned: 0,
            matches: 0,
            top: Vec::new(),
            artifacts: Vec::new(),
            root: String::new(),
            threshold: 104_857_600,
            last_error: None,
        };
        assert(r@ =~= ScanView::initial());
        r
    }
}

/// Where a file of this path first stands.
pub open spec fn place_of(files: Seq<BigFileView>, path: Seq<char>) -> Option<int>
    decreases files.len(),
{
    if files.len() == 0 {
        None
    } else if files[0].path == path {
        Some(0)
    } else {
        match place_of(files.skip(1), path) {
            Some(i) => Some(i + 1),
            None => None,
        }
    }
}

fn position(files: &[BigFile], path: &str) -> (r: Option<usize>)
    ensures
        (match r {
            Some(i) => Some(i as int),
            None => None,
        }) == place_of(views(files@), path@),
        r matches Some(i) ==> i < files@.len(),
{
    let ghost vs = views(files@);
    let mut i: usize = 0;
    assert(vs.skip(0) =~= vs);
    while i < files.len()
        invariant
            i <= files@.len(),
            vs == views(files@),
            place_of(vs, path@) == (match place_of(vs.skip(i as int), path@) {
                Some(k) => Some(k + i),
                None => None,
            }),
        decreases files@.len() - i,
    {
        assert(vs.skip(i as int)[0] == files@[i as int]@);
        if same_text(files[i].path.as_str(), path) {
            return Some(i);
        }
        assert(vs.skip(i as int).skip(1) =~= vs.skip(i as int + 1));
        i += 1;
    }
    None
}

/// The artifacts without those of a path.
pub open spec fn without_path(dirs: Seq<ArtifactView>, path: Seq<char>) -> Seq<ArtifactView> {
    kept(
        dirs,
        |a: ArtifactView|
            if a.path == path {
                None
            } else {
                Some(a)
            },
    )
}

fn drop_path(dirs: Vec<ArtifactDir>, path: &str) -> (r: Vec<ArtifactDir>)
    ensures
        views(r@) == without_path(views(dirs@), path@),
{
    broadcast use lemma_views_push;

    let ghost vs = views(dirs@);
    let ghost f = |a: ArtifactView|
        if a.path == path@ {
            None
        } else {
            Some(a)
        };
    let mut r: Vec<ArtifactDir> = Vec::new();
    proof {
        lemma_kept_ends(views(r@), vs, f);
        assert(views(r@) =~= Seq::<ArtifactView>::empty());
    }
    for a in it: dirs
        invariant
            it.seq() == dirs@,
            vs == views(dirs@),
            f == (|a: ArtifactView|
                if a.path == path@ {
                    None
                } else {
                    Some(a)
                }),
            views(r@) + kept(vs.skip(it.index() as int), f) == kept(vs, f),
    {
        proof {
            lemma_kept_step(views(r@), vs, it.index() as int, f);
        }
        assert(vs[it.index() as int] == a@);
        if !same_text(a.path.as_str(), path) {
            r.push(a);
        }
    }
    proof {
        lemma_kept_ends(views(r@), vs, f);
    }
    r
}

/// The scan cards' worker: what may start, and what each outcome changes.
pub struct Scanner {
    pub state: Scan,
    /// The running walk was told to stop.
    pub cancelled: bool,
}

/// The state of the scan cards, and whether the walk was told to stop.
#[verifier::ext_equal]
pub struct ScannerView {
    pub state: ScanView,
    pub cancelled: bool,
}

impl View for Scanner {
    type V = ScannerView;

    open spec fn view(&self) -> ScannerView {
        ScannerView { state: self.state@, cancelled: self.cancelled }
    }
}

impl Scanner {
    pub fn new() -> (r: Self)
        ensures
            r@ == (ScannerView { state: ScanView::initial(), cancelled: false }),
    {
        Scanner { state: Scan::default(), cancelled: false }
    }

    pub fn is_running(&self) -> (r: bool)
        ensures
            r == self@.state.running,
    {
        self.state.running
    }

    /// Tells the running walk to stop.
    pub fn cancel(&mut self)
        ensures
            final(self)@ == (ScannerView { cancelled: true, ..old(self)@ }),
    {
        self.cancelled = true;
    }

    /// Takes in the deletion of one file, or the message of its failure.
    pub fn delete(&mut self, path: &str, failed: Option<String>)
        ensures
            final(self)@.cancelled == old(self)@.cancelled,
            final(self)@.state == (match opt(failed) {
                Some(e) => ScanView {
                    last_error: Some("Couldn't delete "@ + path@ + ": "@ + e),
                    ..old(self)@.state
                },
                None => match place_of(old(self)@.state.top, path@) {
                    Some(i) => ScanView {
                        top: old(self)@.state.top.remove(i),
                        matches: if old(self)@.state.matches > 0 {
                            (old(self)@.state.matches - 1) as u64
                        } else {
                            0
                        },
                        last_error: None,
                        ..old(self)@.state
                    },
                    None => ScanView { last_error: None, ..old(self)@.state },
                },
            }),
    {
        match failed {
            Some(e) => {
                let mut m = "Couldn't delete ".to_owned();
                m.append(path);
                m.append(": ");
                m.append(e.as_str());
                self.state.last_error = Some(m);
            },
            None => {
                if let Some(i) = position(&self.state.top, path) {
                    let ghost before = self.state.top@;
                    self.state.top.remove(i);
                    assert(views(self.state.top@) =~= views(before).remove(i as int));
                    if self.state.matches > 0 {
                        self.state.matches -= 1;
                    }
                }
                self.state.last_error = None;
            },
        }
    }

    /// Whether a walk from a root starts now.
    pub fn start(&mut self, root: &str, threshold: u64) -> (start: bool)
        ensures
            start == !old(self)@.state.running,
            final(self)@ == if start {
                ScannerView {
                    state: ScanView {
                        running: true,
                        root: root@,
                        threshold,
                        ..ScanView::initial()
                    },
                    cancelled: false,
                }
            } else {
                old(self)@
            },
    {
        if self.is_running() {
            return false;
        }
        self.cancelled = false;
        let mut s = Scan::default();
        s.running = true;
        s.root = root.to_owned();
        s.threshold = threshold;
        self.state = s;
        true
    }

    /// Takes in what a walk has found so far.
    pub fn progress(&mut self, walk: &Walk)
        ensures
            final(self)@ == (ScannerView { state: old(self)@.state.found(walk@), ..old(self)@ }),
    {
        self.state.scanned = walk.scanned;
        self.state.matches = walk.matches;
        self.state.top = sort_trim(copy_files(&walk.top));
        self.state.artifacts = sort_trim_dirs(copy_dirs(&walk.artifacts));
    }

    /// Takes in a walk that ended.
    pub fn finish(&mut self, walk: Walk)
        ensures
            final(self)@ == (ScannerView {
                state: ScanView {
                    running: false,
                    done: !old(self)@.cancelled,
                    ..old(self)@.state.found(walk@)
                },
                ..old(self)@
            }),
    {
        self.progress(&walk);
        self.state.running = false;
        self.state.done = !self.cancelled;
    }

    /// Whether a deletion of artifacts starts now.
    pub fn delete_artifacts(&mut self, paths: &[String]) -> (start: bool)
        ensures
            start == (paths@.len() > 0 && !old(self)@.state.deleting && !old(self)@.state.running),
            final(self)@ == if start {
                ScannerView {
                    state: ScanView { deleting: true, last_error: None, ..old(self)@.state },
                    ..old(self)@
                }
            } else {
                old(self)@
            },
    {
        if paths.len() == 0 || self.state.deleting || self.state.running {
            return false;
        }
        self.state.deleting = true;
        self.state.last_error = None;
        true
    }

    /// Whether a path is among the artifacts found.
    pub fn is_listed(&self, path: &str) -> (r: bool)
        ensures
            r == exists|i: int|
                0 <= i < self@.state.artifacts.len() && (#[trigger] self@.state.artifacts[i]).path
                    == path@,
    {
        let ghost vs = self@.state.artifacts;
        let mut i: usize = 0;
        while i < self.state.artifacts.len()
            invariant
                i <= self.state.artifacts@.len(),
                vs == views(self.state.artifacts@),
                forall|k: int| 0 <= k < i ==> (#[trigger] vs[k]).path != path@,
            decreases self.state.artifacts@.len() - i,
        {
            assert(vs[i as int] == self.state.artifacts@[i as int]@);
            if same_text(self.state.artifacts[i].path.as_str(), path) {
                return true;
            }
            i += 1;
        }
        false
    }

    /// Takes in the deletion of one artifact directory.
    pub fn artifact_deleted(&mut self, path: &str)
        ensures
            final(self)@ == (ScannerView {
                state: ScanView {
                    artifacts: without_path(old(self)@.state.artifacts, path@),
                    ..old(self)@.state
                },
                ..old(self)@
            }),
    {
        let mut dirs: Vec<ArtifactDir> = Vec::new();
        std::mem::swap(&mut dirs, &mut self.state.artifacts);
        self.state.artifacts = drop_path(dirs, path);
    }

    /// Takes in the end of a deletion with its failures: path and message.
    pub fn artifacts_done(&mut self, failures: &[(String, String)])
        ensures
            final(self)@ == (ScannerView {
                state: ScanView {
                    deleting: false,
                    last_error: failures_text(views(failures@)),
                    ..old(self)@.state
                },
                ..old(self)@
            }),
    {
        self.state.deleting = false;
        let n = failures.len();
        self.state.last_error = if n == 0 {
            None
        } else {
            assert(views(failures@)[0] == (failures@[0].0@, failures@[0].1@));
            let mut m = "Couldn't delete ".to_owned();
            m.append(failures[0].0.as_str());
            m.append(": ");
            m.append(failures[0].1.as_str());
            if n > 1 {
                m.append(" (and ");
                let k = show((n - 1) as u64);
                m.append(k.as_str());
                m.append(" more failed)");
            }
            Some(m)
        };
    }
}

/// What is said of the failures of a deletion: the first one, and how many
/// more there were.
pub open spec fn failures_text(failures: Seq<(Seq<char>, Seq<char>)>) -> Option<Seq<char>> {
    if failures.len() == 0 {
        None
    } else {
        let first = "Couldn't delete "@ + failures[0].0 + ": "@ + failures[0].1;
        if failures.len() > 1 {
            Some(first + " (and "@ + decimal((failures.len() - 1) as nat) + " more failed)"@)
        } else {
            Some(first)
        }
    }
}

// --- shown text -------------------------------------------------------------

/// The folder of a path: what precedes its last slash.
pub open spec fn folder_of(path: Seq<char>) -> Seq<char> {
    match last_of(path, '/') {
        Some(i) => path.take(i),
        None => Seq::empty(),
    }
}

pub fn folder(path: &str) -> (r: String)
    ensures
        r@ == folder_of(path@),
{
    let c = to_chars(path);
    match rfind(&c, '/') {
        Some(i) => {
            let d = vstd::slice::slice_subrange(&c, 0, i);
            assert(d@ =~= path@.take(i as int));
            to_text(d)
        },
        None => String::new(),
    }
}

/// What an artifact is shown as: the project folder that holds it.
pub open spec fn project_of(path: Seq<char>) -> Seq<char> {
    let p = base_of(folder_of(path));
    if p.len() == 0 {
        path
    } else {
        p
    }
}

pub fn project(path: &str) -> (r: String)
    ensures
        r@ == project_of(path@),
{
    let dir = folder(path);
    let p = basename(dir.as_str());
    if to_chars(p.as_str()).len() == 0 {
        path.to_owned()
    } else {
        p
    }
}

/// What the scan says of itself.
pub open spec fn status_text(s: ScanView) -> Seq<char> {
    if s.running {
        "Scanning "@ + s.root + " … "@ + decimal(s.scanned as nat) + " files checked, "@ + decimal(
            s.matches as nat,
        ) + " large so far"@
    } else if s.done {
        "Found "@ + decimal(s.matches as nat) + " files ≥ "@ + bytes_text(s.threshold as nat)
            + " under "@ + s.root + " ("@ + decimal(s.scanned as nat) + " files scanned)"@
    } else {
        "Scan your home folder to find what's eating disk space."@
    }
}

impl Scan {
    pub fn status(&self) -> (r: String)
        ensures
            r@ == status_text(self@),
    {
        if self.running {
            let scanned = show(self.scanned);
            let matches = show(self.matches);
            let mut m = "Scanning ".to_owned();
            m.append(self.root.as_str());
            m.append(" … ");
            m.append(scanned.as_str());
            m.append(" files checked, ");
            m.append(matches.as_str());
            m.append(" large so far");
            m
        } else if self.done {
            let scanned = show(self.scanned);
            let matches = show(self.matches);
            let threshold = fmt_bytes(self.threshold);
            let mut m = "Found ".to_owned();
            m.append(matches.as_str());
            m.append(" files ≥ ");
            m.append(threshold.as_str());
            m.append(" under ");
            m.append(self.root.as_str());
            m.append(" (");
            m.append(scanned.as_str());
            m.append(" files scanned)");
            m
        } else {
            "Scan your home folder to find what's eating disk space.".to_owned()
        }
    }

    /// Whether the sizes of the artifacts add up within 64 bits.
    pub fn artifacts_fit(&self) -> (r: bool)
        ensures
            r == (sum_of(artifact_sizes(self@.artifacts)) <= u64::MAX),
    {
        checked_sum(&sizes_listed(&self.artifacts)).is_some()
    }

    /// What all artifacts take together.
    pub fn artifacts_total(&self) -> (r: u64)
        requires
            sum_of(artifact_sizes(self@.artifacts)) <= u64::MAX,
        ensures
            r == sum_of(artifact_sizes(self@.artifacts)),
    {
        match checked_sum(&sizes_listed(&self.artifacts)) {
            Some(t) => t,
            None => 0,
        }
    }

    /// What is said where no artifact is listed.
    pub fn no_artifacts(&self) -> (r: &'static str)
        ensures
            r@ == (if self@.deleting {
                "Deleting…"@
            } else if self@.done {
                "None found in the last scan."@
            } else {
                "Run a scan from Large Files to look for them."@
            }),
    {
        if self.deleting {
            "Deleting…"
        } else if self.done {
            "None found in the last scan."
        } else {
            "Run a scan from Large Files to look for them."
        }
    }
}

/// The sizes of some artifacts.
pub open spec fn artifact_sizes(dirs: Seq<ArtifactView>) -> Seq<u64> {
    dirs.map_values(|a: ArtifactView| a.size)
}

fn sizes_listed(dirs: &[ArtifactDir]) -> (r: Vec<u64>)
    ensures
        r@ == artifact_sizes(views(dirs@)),
{
    let ghost all = artifact_sizes(views(dirs@));
    let mut r: Vec<u64> = Vec::new();
    let mut i: usize = 0;
    while i < dirs.len()
        invariant
            i <= dirs@.len(),
            all == artifact_sizes(views(dirs@)),
            r@ == all.take(i as int),
        decreases dirs@.len() - i,
    {
        r.push(dirs[i].size);
        i += 1;
        assert(r@ =~= all.take(i as int));
    }
    assert(all.take(i as int) =~= all);
    r
}

// --- what the scan must satisfy ---------------------------------------------

/// The four names that an artifact may have, and which kind each is; a Cargo
/// build counts only beside its manifest.
pub proof fn law_artifact_kinds(name: Seq<char>, manifest: bool)
    ensures
        kind_of("node_modules"@, manifest) == Some(ArtifactKind::NodeModules),
        kind_of("__pycache__"@, manifest) == Some(ArtifactKind::PyCache),
        kind_of(".venv"@, manifest) == Some(ArtifactKind::Venv),
        kind_of("target"@, true) == Some(ArtifactKind::CargoTarget),
        kind_of("target"@, false) is None,
        name != "node_modules"@ && name != "__pycache__"@ && name != ".venv"@ && name != "target"@
            ==> kind_of(name, manifest) is None && !artifact_names().contains(name),
        artifact_names().contains("node_modules"@),
        artifact_names().contains("__pycache__"@),
        artifact_names().contains(".venv"@),
        artifact_names().contains("target"@),
        kind_label(ArtifactKind::NodeModules) == "Node packages"@,
        kind_label(ArtifactKind::PyCache) == "Python cache"@,
        kind_label(ArtifactKind::Venv) == "Python venv"@,
        kind_label(ArtifactKind::CargoTarget) == "Cargo build"@,
{
    lemma_names_differ();
    reveal_strlit("node_modules");
    reveal_strlit("__pycache__");
    reveal_strlit(".venv");
    assert("node_modules"@.len() == 12 && "__pycache__"@.len() == 11 && ".venv"@.len() == 5);
    let a = artifact_names();
    assert(a[0] == "node_modules"@ && a[1] == "__pycache__"@ && a[2] == ".venv"@ && a[3]
        == "target"@);
}

/// A path is read component by component; empty ones and references to the
/// directory itself are no components.
pub proof fn law_parts(seg: Seq<char>, rest: Seq<char>)
    requires
        !seg.contains('/'),
    ensures
        seg.len() == 0 || seg == "."@ ==> parts_of(seg + seq!['/'] + rest) == parts_of(rest)
            && parts_of(seg).len() == 0,
        seg.len() > 0 && seg != "."@ ==> parts_of(seg + seq!['/'] + rest) == seq![seg] + parts_of(
            rest,
        ) && parts_of(seg) == seq![seg],
{
    reveal_strlit("/");
    assert("/"@ =~= seq!['/']);
    law_split(seg, rest, '/', 1);
    let f = reader::<PathPart>();
    assert(f(seg) == <PathPart as LineReader>::row_of(seg));
    let tail = split_by(rest, "/"@);
    law_kept_in_order(seq![seg], tail, seg, f);
    assert(Seq::<Seq<char>>::empty() + kept(tail, f) =~= kept(tail, f));
}

/// A directory may be deleted exactly where both paths are absolute, it lies
/// under the scanned root, no component steps upwards, and the last is one of
/// the four names.
pub proof fn law_deletable(root: Seq<char>, path: Seq<char>)
    ensures
        deletable(root, path) <==> {
            let r = parts_of(root);
            let p = parts_of(path);
            &&& root.len() > 0 && root[0] == '/'
            &&& path.len() > 0 && path[0] == '/'
            &&& r.len() <= p.len() && p.take(r.len() as int) == r
            &&& forall|i: int| 0 <= i < p.len() ==> #[trigger] p[i] != ".."@
            &&& p.len() > 0
            &&& p[p.len() - 1] == "node_modules"@ || p[p.len() - 1] == "__pycache__"@ || p[p.len() - 1]
                == ".venv"@ || p[p.len() - 1] == "target"@
        },
{
    reveal_strlit("/");
    lemma_prefix_chars(root, "/"@);
    lemma_prefix_chars(path, "/"@);
    let r = parts_of(root);
    let p = parts_of(path);
    if root.len() > 0 {
        assert(root[0] == "/"@[0] <==> root[0] == '/');
    }
    if path.len() > 0 {
        assert(path[0] == "/"@[0] <==> path[0] == '/');
    }
    if r.len() <= p.len() {
        assert(p.take(r.len() as int) =~= p.subrange(0, r.len() as int));
    }
    if p.len() > 0 {
        law_artifact_kinds(p.last(), false);
        assert(p.last() == p[p.len() - 1]);
    }
    if p.contains(".."@) {
        let k = choose|k: int| 0 <= k < p.len() && p[k] == ".."@;
        assert(p[k] == ".."@);
    }
}

/// What comes next in a deletion, by what is known.
pub proof fn law_delete_step(
    root: Seq<char>,
    listed: bool,
    path: Seq<char>,
    is_dir: Option<Result<bool, Seq<char>>>,
    manifest: Option<bool>,
)
    ensures
        ({
            let s = delete_step(root, listed, path, is_dir, manifest);
            let may = listed && deletable(root, path);
            let cargo = parts_of(path).last() == "target"@;
            &&& !listed ==> s == DeleteStepView::Refuse("not in the current scan results"@)
            &&& listed && !deletable(root, path) ==> s == DeleteStepView::Refuse(
                "path failed safety checks"@,
            )
            &&& s is Stat <==> may && is_dir is None
            &&& may && is_dir is Some && is_dir->0 is Err ==> s == DeleteStepView::Refuse(
                is_dir->0->Err_0,
            )
            &&& may && is_dir == Some(Ok::<bool, Seq<char>>(false)) ==> s == DeleteStepView::Refuse(
                "not a real directory"@,
            )
            &&& s is FindManifest <==> may && is_dir == Some(Ok::<bool, Seq<char>>(true)) && cargo
                && manifest is None
            &&& s is Remove <==> may && is_dir == Some(Ok::<bool, Seq<char>>(true)) && (!cargo
                || manifest == Some(true))
        }),
{
}

/// What a walk does with an entry.
pub proof fn law_steps(e: Entry, name: Seq<char>, manifest: bool)
    ensures
        step_of(e, name, manifest) is Count <==> !e.link && !e.directory && e.file,
        step_of(e, name, manifest) is Descend <==> !e.link && e.directory && kind_of(
            name,
            manifest,
        ) is None,
        step_of(e, name, manifest) is Size <==> !e.link && e.directory && kind_of(
            name,
            manifest,
        ) is Some,
        step_of(e, name, manifest) is Size ==> step_of(e, name, manifest)->Size_0 == kind_of(
            name,
            manifest,
        )->0,
        inner_step_of(e) is Descend <==> !e.link && e.directory,
        inner_step_of(e) is Count <==> !e.link && !e.directory && e.file,
        inner_step_of(e) !is Size,
{
}

/// The sixty largest files and the forty largest directories are kept, larger
/// ones first, and none that is left out is larger than one of them.
pub proof fn law_largest(files: Seq<BigFileView>)
    ensures
        ({
            let b = largest(files);
            &&& files.len() <= 60 ==> b.to_multiset() == files.to_multiset()
            &&& files.len() > 60 ==> b.len() == 60
            &&& forall|i: int, j: int|
                0 <= i < j < b.len() ==> (#[trigger] b[i]).size >= (#[trigger] b[j]).size
            &&& exists|rest: Seq<BigFileView>|
                #![trigger b + rest]
                (b + rest).to_multiset() == files.to_multiset() && forall|i: int, j: int|
                    0 <= i < b.len() && 0 <= j < rest.len() ==> (#[trigger] rest[j]).size <= (
                    #[trigger] b[i]).size
        }),
{
    let lt = order_of::<BigFile>();
    lemma_ranked_weak::<BigFile>();
    law_best(files, lt, 60);
    let b = largest(files);
    assert forall|i: int, j: int| 0 <= i < j < b.len() implies (#[trigger] b[i]).size >= (
    #[trigger] b[j]).size by {
        assert(!lt(b[j], b[i]));
    }
    let rest = choose|rest: Seq<BigFileView>|
        #![trigger b + rest]
        (b + rest).to_multiset() == files.to_multiset() && forall|i: int, j: int|
            0 <= i < b.len() && 0 <= j < rest.len() ==> !lt(#[trigger] rest[j], #[trigger] b[i]);
    assert forall|i: int, j: int| 0 <= i < b.len() && 0 <= j < rest.len() implies (
    #[trigger] rest[j]).size <= (#[trigger] b[i]).size by {
        assert(!lt(rest[j], b[i]));
    }
    assert((b + rest).to_multiset() == files.to_multiset());
}

/// As for files, so for directories.
pub proof fn law_largest_dirs(dirs: Seq<ArtifactView>)
    ensures
        ({
            let b = largest_dirs(dirs);
            &&& dirs.len() <= 40 ==> b.to_multiset() == dirs.to_multiset()
            &&& dirs.len() > 40 ==> b.len() == 40
            &&& forall|i: int, j: int|
                0 <= i < j < b.len() ==> (#[trigger] b[i]).size >= (#[trigger] b[j]).size
            &&& exists|rest: Seq<ArtifactView>|
                #![trigger b + rest]
                (b + rest).to_multiset() == dirs.to_multiset() && forall|i: int, j: int|
                    0 <= i < b.len() && 0 <= j < rest.len() ==> (#[trigger] rest[j]).size <= (
                    #[trigger] b[i]).size
        }),
{
    let lt = order_of::<ArtifactDir>();
    lemma_ranked_weak::<ArtifactDir>();
    law_best(dirs, lt, 40);
    let b = largest_dirs(dirs);
    assert forall|i: int, j: int| 0 <= i < j < b.len() implies (#[trigger] b[i]).size >= (
    #[trigger] b[j]).size by {
        assert(!lt(b[j], b[i]));
    }
    let rest = choose|rest: Seq<ArtifactView>|
        #![trigger b + rest]
        (b + rest).to_multiset() == dirs.to_multiset() && forall|i: int, j: int|
            0 <= i < b.len() && 0 <= j < rest.len() ==> !lt(#[trigger] rest[j], #[trigger] b[i]);
    assert forall|i: int, j: int| 0 <= i < b.len() && 0 <= j < rest.len() implies (
    #[trigger] rest[j]).size <= (#[trigger] b[i]).size by {
        assert(!lt(rest[j], b[i]));
    }
    assert((b + rest).to_multiset() == dirs.to_multiset());
}

/// Every file is counted, and one of at least the threshold as a match; of a
/// directory every file is counted, and it is shown from one MiB on. Progress
/// is due after three thousand files.
pub proof fn law_visits(w: WalkView, f: BigFileView, a: ArtifactView, n: nat, s: ScanView)
    ensures
        w.visited(f).scanned == w.scanned + 1,
        w.visited(f).since_flush == w.since_flush + 1,
        w.visited(f).threshold == w.threshold,
        w.visited(f).artifacts == w.artifacts,
        f.size >= w.threshold ==> w.visited(f).matches == w.matches + 1 && largest(
            w.visited(f).top,
        ) == largest(w.top.push(f)),
        f.size < w.threshold ==> w.visited(f).matches == w.matches && w.visited(f).top == w.top,
        w.sized(a, n).scanned == w.scanned + n,
        w.sized(a, n).since_flush == w.since_flush + n,
        w.sized(a, n).matches == w.matches && w.sized(a, n).top == w.top && w.sized(
            a,
            n,
        ).threshold == w.threshold,
        a.size >= 1_048_576 ==> w.sized(a, n).artifacts == w.artifacts.push(a),
        a.size < 1_048_576 ==> w.sized(a, n).artifacts == w.artifacts,
        w.since_flush >= 3_000 ==> w.reported().since_flush == 0,
        w.since_flush < 3_000 ==> w.reported() == w,
        w.reported().scanned == w.scanned && w.reported().matches == w.matches && w.reported().top
            == w.top && w.reported().artifacts == w.artifacts,
        WalkView::start(w.threshold).scanned == 0 && WalkView::start(w.threshold).matches == 0
            && WalkView::start(w.threshold).top.len() == 0 && WalkView::start(
            w.threshold,
        ).artifacts.len() == 0 && WalkView::start(w.threshold).threshold == w.threshold,
        w.wf() ==> s.found(w).scanned == w.scanned && s.found(w).matches == w.matches,
        s.found(w).top == largest(w.top),
        s.found(w).artifacts == largest_dirs(w.artifacts),
        s.found(w).root == s.root && s.found(w).threshold == s.threshold && s.found(w).running
            == s.running && s.found(w).done == s.done,
        ScanView::initial().threshold == 100 * 1024 * 1024,
        !ScanView::initial().running && !ScanView::initial().done && !ScanView::initial().deleting,
{
    if f.size >= w.threshold {
        lemma_ranked_weak::<BigFile>();
        law_best_twice(w.top.push(f), order_of::<BigFile>(), KEEP as nat);
    }
}

/// The first failure is said, and how many more there were.
pub proof fn law_failures(failures: Seq<(Seq<char>, Seq<char>)>)
    ensures
        failures.len() == 0 ==> failures_text(failures) is None,
        failures.len() == 1 ==> failures_text(failures) == Some(
            "Couldn't delete "@ + failures[0].0 + ": "@ + failures[0].1,
        ),
        failures.len() > 1 ==> failures_text(failures) == Some(
            "Couldn't delete "@ + failures[0].0 + ": "@ + failures[0].1 + " (and "@ + decimal(
                (failures.len() - 1) as nat,
            ) + " more failed)"@,
        ),
{
}

/// A path's folder is what precedes its last slash; an artifact is called by
/// the folder that holds it, or by its path where that has no name.
pub proof fn law_folders(outer: Seq<char>, project: Seq<char>, name: Seq<char>)
    requires
        !project.contains('/'),
        !name.contains('/'),
    ensures
        folder_of(outer + seq!['/'] + name) == outer,
        folder_of(name).len() == 0,
        project.len() > 0 ==> project_of(outer + seq!['/'] + project + seq!['/'] + name) == project,
        project_of(name) == name,
        project_of(outer + seq!['/'] + seq!['/'] + name) == outer + seq!['/'] + seq!['/'] + name,
{
    law_last_of(outer, name, '/');
    assert((outer + seq!['/'] + name).take(outer.len() as int) =~= outer);
    let inner = outer + seq!['/'] + project;
    law_last_of(inner, name, '/');
    assert((inner + seq!['/'] + name).take(inner.len() as int) =~= inner);
    law_basename(outer, project);
    let none = Seq::<char>::empty();
    law_basename(none, none);
    assert(folder_of(name) =~= none);
    let bare = outer + seq!['/'];
    law_last_of(bare, name, '/');
    assert((bare + seq!['/'] + name).take(bare.len() as int) =~= bare);
    assert(bare =~= outer + seq!['/'] + none);
    law_basename(outer, none);
}

/// What a scan says while it runs, once it is done, and before.
pub proof fn law_status(s: ScanView)
    ensures
        s.running ==> status_text(s) == "Scanning "@ + s.root + " … "@ + decimal(s.scanned as nat)
            + " files checked, "@ + decimal(s.matches as nat) + " large so far"@,
        !s.running && s.done ==> status_text(s) == "Found "@ + decimal(s.matches as nat)
            + " files ≥ "@ + bytes_text(s.threshold as nat) + " under "@ + s.root + " ("@ + decimal(
            s.scanned as nat,
        ) + " files scanned)"@,
        !s.running && !s.done ==> status_text(s)
            == "Scan your home folder to find what's eating disk space."@,
{
}

/// A deleted file is the first of its path, and a deleted directory is every
/// one of its path.
pub proof fn law_deleted(
    files: Seq<BigFileView>,
    f: BigFileView,
    dirs: Seq<ArtifactView>,
    a: ArtifactView,
    path: Seq<char>,
)
    ensures
        f.path == path ==> place_of(seq![f] + files, path) == Some(0int),
        f.path != path ==> (match place_of(files, path) {
            Some(i) => place_of(seq![f] + files, path) == Some(i + 1),
            None => place_of(seq![f] + files, path) is None,
        }),
        place_of(Seq::empty(), path) is None,
        a.path == path ==> without_path(dirs.push(a), path) == without_path(dirs, path),
        a.path != path ==> without_path(dirs.push(a), path) == without_path(dirs, path).push(a),
        without_path(Seq::empty(), path).len() == 0,
        sum_of(artifact_sizes(dirs.push(a))) == sum_of(artifact_sizes(dirs)) + a.size,
        sum_of(artifact_sizes(Seq::empty())) == 0,
{
    assert((seq![f] + files).skip(1) =~= files);
    let g = |a: ArtifactView|
        if a.path == path {
            None
        } else {
            Some(a)
        };
    assert(dirs.push(a) =~= dirs + seq![a]);
    law_kept_in_order(dirs, seq![a], a, g);
    let k = without_path(dirs, path);
    assert(k == kept(dirs, g));
    assert(k + Seq::<ArtifactView>::empty() =~= k);
    assert(k + seq![a] =~= k.push(a));
    let z = artifact_sizes(dirs);
    assert(artifact_sizes(dirs.push(a)) =~= z + seq![a.size]);
    law_sum(z, seq![a.size], a.size);
    assert(artifact_sizes(Seq::empty()) =~= Seq::<u64>::empty());
}

/// What is said of a file, a directory, a walk and a scan is said of the fields.
pub proof fn law_fields(
    file: BigFile,
    dir: ArtifactDir,
    walk: Walk,
    scan: Scan,
    scanner: Scanner,
    step: DeleteStep,
)
    ensures
        file@.path == file.path@,
        file@.size == file.size,
        dir@.path == dir.path@,
        dir@.size == dir.size,
        dir@.kind == dir.kind,
        walk@.threshold == walk.threshold,
        walk@.scanned == walk.scanned as nat,
        walk@.matches == walk.matches as nat,
        walk@.since_flush == walk.since_flush as nat,
        walk@.top == views(walk.top@),
        walk@.artifacts == views(walk.artifacts@),
        scan@.running == scan.running,
        scan@.done == scan.done,
        scan@.deleting == scan.deleting,
        scan@.scanned == scan.scanned,
        scan@.matches == scan.matches,
        scan@.top == views(scan.top@),
        scan@.artifacts == views(scan.artifacts@),
        scan@.root == scan.root@,
        scan@.threshold == scan.threshold,
        scan@.last_error == opt(scan.last_error),
        scanner@.state == scanner.state@,
        scanner@.cancelled == scanner.cancelled,
        step matches DeleteStep::Refuse(m) ==> step@ == DeleteStepView::Refuse(m@),
        step is Stat ==> step@ is Stat,
        step is FindManifest ==> step@ is FindManifest,
        step is Remove ==> step@ is Remove,
{
}

/// What is known of a directory, a failure by its text.
pub proof fn law_known_dir(r: Option<Result<bool, String>>)
    ensures
        r is None ==> dir_view(r) is None,
        r matches Some(Ok(b)) ==> dir_view(r) == Some(Ok::<bool, Seq<char>>(b)),
        r matches Some(Err(e)) ==> dir_view(r) == Some(Err::<bool, Seq<char>>(e@)),
{
}

/// At first nothing is found, running or said.
pub proof fn law_at_first(threshold: u64)
    ensures
        ({
            let s = ScanView::initial();
            &&& !s.running && !s.done && !s.deleting && s.scanned == 0 && s.matches == 0
            &&& s.top.len() == 0 && s.artifacts.len() == 0 && s.root.len() == 0
            &&& s.last_error is None
        }),
        WalkView::start(threshold).since_flush == 0,
{
}

} // verus!
