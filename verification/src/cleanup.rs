//! Reclaimable space in caches and logs, and the commands that clear it.

use vstd::prelude::*;
use vstd::string::*;

use crate::log::{newest_lines, push_log};
use crate::number::{
    all_digits, bounded_of, checked_sum, decimal, law_no_number, law_sum, parse_u64, show, sum_of,
};
use crate::size::{compact_size, compact_size_of, size_unit, size_unit_of};
use crate::text::{
    contains, digit, field, field_of, find, find_in, first_or, is_digit, is_lower, is_plain,
    is_space, is_text, join, joined, kept, last_of, law_affixes, law_joined, law_kept_in_order,
    law_last_of, law_plain, law_rows, law_split_joined, law_split_once, law_words, lemma_find_char,
    lemma_kept_ends, lemma_kept_step, lemma_plain_is_inert, lemma_prefix_chars, lemma_run_before,
    lemma_run_before_absent, lemma_views_push, lines_of, lower, occurs, opt, plain, reader, rfind,
    rows, rows_after_heading, rows_below, rows_of, run_before, same_text, shell_inert,
    shell_special, spaceless, split, split_by, split_once, split_once_at, strip_suffix, to_chars,
    to_text, trim, trimmed, views, without_suffix, word_rows, word_rows_of, words, words_of,
    LineReader,
};

use crate::theme::{bytes_text, fmt_bytes};
use crate::view::Selection;

verus! {

// --- sizes ------------------------------------------------------------------

/// "234 MB", "1.5 GB" or "512 kB" in bytes.
pub fn parse_size_unit(s: &str) -> (r: u64)
    ensures
        r == size_unit_of(s@),
{
    size_unit(&to_chars(s))
}

/// "1.2G", "240.0M", "512.0K" or "900B" in bytes.
pub fn parse_journal_size(tok: &str) -> (r: u64)
    ensures
        r == compact_size_of(tok@),
{
    compact_size(&to_chars(tok))
}

/// The bytes that a disk usage report begins with.
pub open spec fn usage_of(out: Seq<char>) -> u64 {
    match bounded_of(field_of(words_of(out), 0), u64::MAX as nat) {
        Some(v) => v as u64,
        None => 0,
    }
}

pub fn du_bytes(out: &str) -> (r: u64)
    ensures
        r == usage_of(out@),
{
    let c = to_chars(out);
    let w = words(&c);
    match parse_u64(field(&w, 0)) {
        Some(v) => v,
        None => 0,
    }
}

/// What a line of a simulated removal says will be freed: the size between
/// the last comma and the words "will be freed".
pub open spec fn freed_of(line: Seq<char>) -> Option<u64> {
    match find_in(line, "will be freed"@) {
        None => None,
        Some(i) => {
            let head = line.take(i);
            match last_of(head, ',') {
                None => None,
                Some(c) => Some(size_unit_of(trimmed(head.skip(c + 1)))),
            }
        },
    }
}

/// Reads what a line says will be freed.
pub struct FreedLine;

impl LineReader for FreedLine {
    type Row = u64;

    open spec fn row_of(line: Seq<char>) -> Option<u64> {
        freed_of(line)
    }

    fn read(line: &[char]) -> (r: Option<u64>) {
        let pat = to_chars("will be freed");
        match find(line, &pat) {
            None => None,
            Some(i) => {
                let head = vstd::slice::slice_subrange(line, 0, i);
                assert(head@ =~= line@.take(i as int));
                match rfind(head, ',') {
                    None => None,
                    Some(c) => {
                        let tail = vstd::slice::slice_subrange(head, c + 1, i);
                        assert(tail@ =~= head@.skip(c as int + 1));
                        Some(size_unit(trim(tail)))
                    },
                }
            },
        }
    }
}

/// What a simulated removal would free: what the first line says that says
/// anything of it.
pub open spec fn autoremove_of(out: Seq<char>) -> u64 {
    first_or(rows_of::<FreedLine>(out), 0)
}

pub fn apt_autoremove_bytes(out: &str) -> (r: u64)
    ensures
        r == autoremove_of(out@),
{
    let found = rows::<FreedLine>(out);
    assert(views(found@) =~= found@);
    if found.len() > 0 {
        found[0]
    } else {
        0
    }
}

/// Reads a word that is a positive compact size.
pub struct SizeWord;

impl LineReader for SizeWord {
    type Row = u64;

    open spec fn row_of(word: Seq<char>) -> Option<u64> {
        if compact_size_of(word) > 0 {
            Some(compact_size_of(word))
        } else {
            None
        }
    }

    fn read(word: &[char]) -> (r: Option<u64>) {
        let b = compact_size(word);
        if b > 0 {
            Some(b)
        } else {
            None
        }
    }
}

/// The first positive size that a journal report mentions.
pub open spec fn journal_of(out: Seq<char>) -> u64 {
    first_or(word_rows_of::<SizeWord>(out), 0)
}

pub fn journal_bytes(out: &str) -> (r: u64)
    ensures
        r == journal_of(out@),
{
    let found = word_rows::<SizeWord>(out);
    assert(views(found@) =~= found@);
    if found.len() > 0 {
        found[0]
    } else {
        0
    }
}

// --- snap -------------------------------------------------------------------

/// A snap name: lowercase letters, digits and dashes, fewer than 100 of them.
pub open spec fn is_snap_name(s: Seq<char>) -> bool {
    &&& 0 < s.len() < 100
    &&& forall|i: int| 0 <= i < s.len() ==> is_lower(#[trigger] s[i]) || is_digit(s[i]) || s[i] == '-'
}

/// A snap revision: letters and digits, fewer than 20 of them.
pub open spec fn is_snap_rev(s: Seq<char>) -> bool {
    is_plain(s, ""@, 20)
}

fn snap_name(s: &[char]) -> (r: bool)
    ensures
        r == is_snap_name(s@),
{
    if s.len() == 0 || s.len() >= 100 {
        return false;
    }
    let mut i: usize = 0;
    while i < s.len()
        invariant
            i <= s@.len(),
            forall|k: int|
                0 <= k < i ==> is_lower(#[trigger] s@[k]) || is_digit(s@[k]) || s@[k] == '-',
        decreases s@.len() - i,
    {
        if !lower(s[i]) && !digit(s[i]) && s[i] != '-' {
            return false;
        }
        i += 1;
    }
    true
}

pub fn valid_snap_name(s: &str) -> (r: bool)
    ensures
        r == is_snap_name(s@),
{
    snap_name(&to_chars(s))
}

pub fn valid_snap_rev(s: &str) -> (r: bool)
    ensures
        r == is_snap_rev(s@),
{
    plain(&to_chars(s), "", 20)
}

/// A snap name and a revision, as the listing gives them.
pub type RevisionView = (Seq<char>, Seq<char>);

/// The disabled revision that a row of the snap listing stands for: at least
/// six columns, of which the last is the comma-separated notes.
pub open spec fn disabled_row(line: Seq<char>) -> Option<RevisionView> {
    let cols = words_of(line);
    if cols.len() >= 6 && split_by(cols.last(), ","@).contains("disabled"@) && is_snap_name(cols[0])
        && is_snap_rev(cols[2]) {
        Some((cols[0], cols[2]))
    } else {
        None
    }
}

fn any_is(parts: &Vec<&[char]>, lit: &str) -> (r: bool)
    ensures
        r == views(parts@).contains(lit@),
{
    let mut i: usize = 0;
    while i < parts.len()
        invariant
            i <= parts@.len(),
            forall|k: int| 0 <= k < i ==> views(parts@)[k] != lit@,
        decreases parts@.len() - i,
    {
        assert(views(parts@)[i as int] == parts@[i as int]@);
        if is_text(parts[i], lit) {
            return true;
        }
        i += 1;
    }
    false
}

/// Reads a row of the snap listing.
pub struct DisabledLine;

impl LineReader for DisabledLine {
    type Row = (String, String);

    open spec fn row_of(line: Seq<char>) -> Option<RevisionView> {
        disabled_row(line)
    }

    fn read(line: &[char]) -> (r: Option<(String, String)>) {
        let cols = words(line);
        let n = cols.len();
        if n < 6 {
            return None;
        }
        assert(views(cols@)[0] == cols@[0]@);
        assert(views(cols@)[2] == cols@[2]@);
        assert(views(cols@).last() == cols@[n - 1]@);
        proof {
            reveal_strlit(",");
        }
        let notes = split(cols[n - 1], ",");
        if any_is(&notes, "disabled") && snap_name(cols[0]) && plain(cols[2], "", 20) {
            Some((to_text(cols[0]), to_text(cols[2])))
        } else {
            None
        }
    }
}

/// The disabled revisions of a snap listing, below its heading.
pub open spec fn disabled_of(out: Seq<char>) -> Seq<RevisionView> {
    rows_below::<DisabledLine>(out)
}

pub fn parse_snap_disabled(out: &str) -> (r: Vec<(String, String)>)
    ensures
        views(r@) == disabled_of(out@),
{
    rows_after_heading::<DisabledLine>(out)
}

/// What comes out of `kept` was given by the function for some item.
proof fn lemma_kept_from<A, B>(s: Seq<A>, f: spec_fn(A) -> Option<B>, i: int)
    requires
        0 <= i < kept(s, f).len(),
    ensures
        exists|k: int| 0 <= k < s.len() && f(#[trigger] s[k]) == Some(kept(s, f)[i]),
    decreases s.len(),
{
    if s.len() > 0 {
        let rest = kept(s.skip(1), f);
        match f(s[0]) {
            Some(b) => {
                if i > 0 {
                    lemma_kept_from(s.skip(1), f, i - 1);
                    let k = choose|k: int|
                        0 <= k < s.skip(1).len() && f(#[trigger] s.skip(1)[k]) == Some(rest[i - 1]);
                    assert(f(s[k + 1]) == Some(kept(s, f)[i]));
                } else {
                    assert(f(s[0]) == Some(kept(s, f)[0]));
                }
            },
            None => {
                lemma_kept_from(s.skip(1), f, i);
                let k = choose|k: int|
                    0 <= k < s.skip(1).len() && f(#[trigger] s.skip(1)[k]) == Some(rest[i]);
                assert(f(s[k + 1]) == Some(kept(s, f)[i]));
            },
        }
    }
}

/// Every revision drawn from a listing has a name and a revision that the
/// shell does not act on.
pub proof fn law_disabled_is_inert(out: Seq<char>)
    ensures
        forall|i: int|
            0 <= i < disabled_of(out).len() ==> shell_inert((#[trigger] disabled_of(out)[i]).0)
                && shell_inert(disabled_of(out)[i].1),
{
    let rows = disabled_of(out);
    let f = reader::<DisabledLine>();
    assert forall|i: int| 0 <= i < rows.len() implies shell_inert((#[trigger] rows[i]).0)
        && shell_inert(rows[i].1) by {
        let ls = crate::text::below(lines_of(out));
        lemma_kept_from(ls, f, i);
        let k = choose|k: int| 0 <= k < ls.len() && f(#[trigger] ls[k]) == Some(rows[i]);
        assert(disabled_row(ls[k]) == Some(rows[i]));
        lemma_snap_inert(rows[i].0, rows[i].1);
    }
}

proof fn lemma_snap_inert(name: Seq<char>, rev: Seq<char>)
    requires
        is_snap_name(name),
        is_snap_rev(rev),
    ensures
        shell_inert(name),
        shell_inert(rev),
{
    reveal_strlit("");
    reveal_strlit(" |&;<>()$`\\\"'*?[]{}#!=%");
    lemma_plain_is_inert(rev, ""@, 20);
    assert forall|i: int| 0 <= i < name.len() implies !shell_special(#[trigger] name[i]) by {
        let c = name[i];
        assert(is_lower(c) || is_digit(c) || c == '-');
    }
}

// --- flatpak ----------------------------------------------------------------

/// A part of a flatpak reference: letters, digits and `._-`, fewer than 200.
pub open spec fn is_flatpak_part(s: Seq<char>) -> bool {
    is_plain(s, "._-"@, 200)
}

pub fn valid_flatpak_part(s: &str) -> (r: bool)
    ensures
        r == is_flatpak_part(s@),
{
    plain(&to_chars(s), "._-", 200)
}

/// The runtime that a numbered row stands for: a number with a full stop, an
/// id with a dot in it, a branch.
pub open spec fn unused_row(line: Seq<char>) -> Option<RevisionView> {
    let w = words_of(line);
    if w.len() < 3 {
        None
    } else {
        match without_suffix(w[0], "."@) {
            None => None,
            Some(digits) => if digits.len() > 0 && all_digits(digits) && occurs(w[1], "."@)
                && is_flatpak_part(w[1]) && is_flatpak_part(w[2]) {
                Some((w[1], w[2]))
            } else {
                None
            },
        }
    }
}

fn numeral(s: &[char]) -> (r: bool)
    ensures
        r == (s@.len() > 0 && all_digits(s@)),
{
    let mut i: usize = 0;
    while i < s.len()
        invariant
            i <= s@.len(),
            forall|k: int| 0 <= k < i ==> is_digit(#[trigger] s@[k]),
        decreases s@.len() - i,
    {
        if !digit(s[i]) {
            return false;
        }
        i += 1;
    }
    s.len() > 0
}

/// Reads a numbered row.
pub struct UnusedLine;

impl LineReader for UnusedLine {
    type Row = (String, String);

    open spec fn row_of(line: Seq<char>) -> Option<RevisionView> {
        unused_row(line)
    }

    fn read(line: &[char]) -> (r: Option<(String, String)>) {
        let w = words(line);
        if w.len() < 3 {
            return None;
        }
        assert(views(w@)[0] == w@[0]@);
        assert(views(w@)[1] == w@[1]@);
        assert(views(w@)[2] == w@[2]@);
        match strip_suffix(w[0], ".") {
            None => None,
            Some(digits) => {
                if numeral(digits) && contains(w[1], ".") && plain(w[1], "._-", 200) && plain(
                    w[2],
                    "._-",
                    200,
                ) {
                    Some((to_text(w[1]), to_text(w[2])))
                } else {
                    None
                }
            },
        }
    }
}

/// The unused runtimes of a transcript.
pub open spec fn unused_of(out: Seq<char>) -> Seq<RevisionView> {
    rows_of::<UnusedLine>(out)
}

pub fn parse_flatpak_unused(out: &str) -> (r: Vec<(String, String)>)
    ensures
        views(r@) == unused_of(out@),
{
    rows::<UnusedLine>(out)
}

/// An id, a branch and a size in bytes.
pub type SizedView = (Seq<char>, Seq<char>, u64);

/// The sized reference that a tab-separated row stands for:
/// `id/arch/branch`, perhaps with a leading kind, and a size.
pub open spec fn sized_row(line: Seq<char>) -> Option<SizedView> {
    match split_once_at(line, "\t"@) {
        None => None,
        Some((r, sz)) => {
            let segs = split_by(trimmed(r), "/"@);
            let size = size_unit_of(trimmed(sz));
            if segs.len() == 4 {
                Some((segs[1], segs[3], size))
            } else if segs.len() == 3 {
                Some((segs[0], segs[2], size))
            } else {
                None
            }
        },
    }
}

/// Reads a row of sized references.
pub struct SizedLine;

impl LineReader for SizedLine {
    type Row = (String, String, u64);

    open spec fn row_of(line: Seq<char>) -> Option<SizedView> {
        sized_row(line)
    }

    fn read(line: &[char]) -> (r: Option<(String, String, u64)>) {
        match split_once(line, "\t") {
            None => None,
            Some((r, sz)) => {
                proof {
                    reveal_strlit("/");
                }
                let segs = split(trim(r), "/");
                let size = size_unit(trim(sz));
                if segs.len() == 4 {
                    assert(views(segs@)[1] == segs@[1]@);
                    assert(views(segs@)[3] == segs@[3]@);
                    Some((to_text(segs[1]), to_text(segs[3]), size))
                } else if segs.len() == 3 {
                    assert(views(segs@)[0] == segs@[0]@);
                    assert(views(segs@)[2] == segs@[2]@);
                    Some((to_text(segs[0]), to_text(segs[2]), size))
                } else {
                    None
                }
            },
        }
    }
}

/// The sized references of a listing.
pub open spec fn sized_of(out: Seq<char>) -> Seq<SizedView> {
    rows_of::<SizedLine>(out)
}

pub fn parse_flatpak_sizes(out: &str) -> (r: Vec<(String, String, u64)>)
    ensures
        views(r@) == sized_of(out@),
{
    rows::<SizedLine>(out)
}

/// The size of a reference: that of the first row for it, zero without one.
pub open spec fn size_in(sizes: Seq<SizedView>, r: RevisionView) -> u64
    decreases sizes.len(),
{
    if sizes.len() == 0 {
        0
    } else if sizes[0].0 == r.0 && sizes[0].1 == r.1 {
        sizes[0].2
    } else {
        size_in(sizes.skip(1), r)
    }
}

/// The sizes of some references.
pub open spec fn sizes_in(sizes: Seq<SizedView>, refs: Seq<RevisionView>) -> Seq<u64> {
    refs.map_values(|r: RevisionView| size_in(sizes, r))
}

fn look_up(sizes: &[(String, String, u64)], id: &str, branch: &str) -> (r: u64)
    ensures
        r == size_in(views(sizes@), (id@, branch@)),
{
    let ghost vs = views(sizes@);
    let mut i: usize = 0;
    assert(vs.skip(0) =~= vs);
    while i < sizes.len()
        invariant
            i <= sizes@.len(),
            vs == views(sizes@),
            size_in(vs, (id@, branch@)) == size_in(vs.skip(i as int), (id@, branch@)),
        decreases sizes@.len() - i,
    {
        assert(vs.skip(i as int)[0] == sizes@[i as int]@);
        if same_text(sizes[i].0.as_str(), id) && same_text(sizes[i].1.as_str(), branch) {
            return sizes[i].2;
        }
        assert(vs.skip(i as int).skip(1) =~= vs.skip(i as int + 1));
        i += 1;
    }
    0
}

fn look_up_all(sizes: &[(String, String, u64)], refs: &[(String, String)]) -> (r: Vec<u64>)
    ensures
        r@ == sizes_in(views(sizes@), views(refs@)),
{
    let ghost all = sizes_in(views(sizes@), views(refs@));
    let mut r: Vec<u64> = Vec::new();
    let mut i: usize = 0;
    while i < refs.len()
        invariant
            i <= refs@.len(),
            all == sizes_in(views(sizes@), views(refs@)),
            r@ == all.take(i as int),
        decreases refs@.len() - i,
    {
        assert(views(refs@)[i as int] == (refs@[i as int].0@, refs@[i as int].1@));
        r.push(look_up(sizes, refs[i].0.as_str(), refs[i].1.as_str()));
        i += 1;
        assert(r@ =~= all.take(i as int));
    }
    assert(all.take(i as int) =~= all);
    r
}

// --- targets ----------------------------------------------------------------

/// Something that can be cleaned.
pub struct CleanTarget {
    pub key: &'static str,
    pub label: &'static str,
    pub detail: String,
    /// Reclaimable bytes.
    pub size: u64,
    /// Countable units, where the target has any.
    pub items: usize,
}

#[verifier::ext_equal]
pub struct TargetView {
    pub key: Seq<char>,
    pub label: Seq<char>,
    pub detail: Seq<char>,
    pub size: u64,
    pub items: nat,
}

impl View for CleanTarget {
    type V = TargetView;

    open spec fn view(&self) -> TargetView {
        TargetView {
            key: self.key@,
            label: self.label@,
            detail: self.detail@,
            size: self.size,
            items: self.items as nat,
        }
    }
}

/// What is asked to size a target.
pub enum Probe {
    /// The disk usage of this path.
    Usage(String),
    /// A simulated removal of packages that nothing needs.
    Autoremove,
    /// The journal's disk usage.
    Journal,
    /// Nothing.
    Nothing,
}

pub enum ProbeView {
    Usage(Seq<char>),
    Autoremove,
    Journal,
    Nothing,
}

impl View for Probe {
    type V = ProbeView;

    open spec fn view(&self) -> ProbeView {
        match *self {
            Probe::Usage(p) => ProbeView::Usage(p@),
            Probe::Autoremove => ProbeView::Autoremove,
            Probe::Journal => ProbeView::Journal,
            Probe::Nothing => ProbeView::Nothing,
        }
    }
}

/// What is asked to size the target of a key.
pub open spec fn probe_of(key: Seq<char>, home: Seq<char>) -> ProbeView {
    if key == "apt"@ {
        ProbeView::Usage("/var/cache/apt/archives"@)
    } else if key == "crash"@ {
        ProbeView::Usage("/var/crash"@)
    } else if key == "thumbnails"@ {
        ProbeView::Usage(home + "/.cache/thumbnails"@)
    } else if key == "trash"@ {
        ProbeView::Usage(home + "/.local/share/Trash"@)
    } else if key == "autoremove"@ {
        ProbeView::Autoremove
    } else if key == "journal"@ {
        ProbeView::Journal
    } else {
        ProbeView::Nothing
    }
}

pub fn probe(key: &str, home: &str) -> (r: Probe)
    ensures
        r@ == probe_of(key@, home@),
{
    let k = to_chars(key);
    if is_text(&k, "apt") {
        Probe::Usage("/var/cache/apt/archives".to_owned())
    } else if is_text(&k, "crash") {
        Probe::Usage("/var/crash".to_owned())
    } else if is_text(&k, "thumbnails") {
        let mut p = home.to_owned();
        p.append("/.cache/thumbnails");
        Probe::Usage(p)
    } else if is_text(&k, "trash") {
        let mut p = home.to_owned();
        p.append("/.local/share/Trash");
        Probe::Usage(p)
    } else if is_text(&k, "autoremove") {
        Probe::Autoremove
    } else if is_text(&k, "journal") {
        Probe::Journal
    } else {
        Probe::Nothing
    }
}

/// What the reply to a probe comes to; no reply comes to nothing.
pub open spec fn size_of(key: Seq<char>, reply: Option<Seq<char>>) -> u64 {
    match reply {
        None => 0,
        Some(out) => match probe_of(key, Seq::empty()) {
            ProbeView::Usage(_) => usage_of(out),
            ProbeView::Autoremove => autoremove_of(out),
            ProbeView::Journal => journal_of(out),
            ProbeView::Nothing => 0,
        },
    }
}

/// Sizes the target of a key from the reply to its probe.
pub fn measure(key: &str, reply: &Option<String>) -> (r: u64)
    ensures
        r == size_of(key@, opt(*reply)),
{
    match reply {
        None => 0,
        Some(out) => {
            let none = String::new();
            match probe(key, none.as_str()) {
                Probe::Usage(_) => du_bytes(out.as_str()),
                Probe::Autoremove => apt_autoremove_bytes(out.as_str()),
                Probe::Journal => journal_bytes(out.as_str()),
                Probe::Nothing => 0,
            }
        },
    }
}

/// A target without countable units.
pub open spec fn plain_target(
    key: Seq<char>,
    label: Seq<char>,
    detail: Seq<char>,
    reply: Option<Seq<char>>,
) -> TargetView {
    TargetView { key, label, detail, size: size_of(key, reply), items: 0 }
}

/// The keys of the targets that every system has, in the order they are
/// shown.
pub open spec fn standard_keys() -> Seq<Seq<char>> {
    seq!["apt"@, "autoremove"@, "journal"@, "crash"@, "thumbnails"@, "trash"@]
}

pub fn target_keys() -> (r: Vec<&'static str>)
    ensures
        views(r@) == standard_keys(),
{
    let r = vec!["apt", "autoremove", "journal", "crash", "thumbnails", "trash"];
    assert(views(r@) =~= standard_keys());
    r
}

/// The targets that every system has, sized from the replies to their probes.
pub open spec fn standard_targets(replies: Seq<Option<Seq<char>>>) -> Seq<TargetView> {
    seq![
        plain_target(
            "apt"@,
            "Apt package cache"@,
            "Downloaded .deb files in /var/cache/apt"@,
            replies[0],
        ),
        plain_target(
            "autoremove"@,
            "Unused packages"@,
            "Auto-removable dependencies & old kernels"@,
            replies[1],
        ),
        plain_target(
            "journal"@,
            "System logs"@,
            "Old journald logs (keeps the last 3 days)"@,
            replies[2],
        ),
        plain_target("crash"@, "Crash reports"@, "Saved crash dumps in /var/crash"@, replies[3]),
        plain_target(
            "thumbnails"@,
            "Thumbnail cache"@,
            "~/.cache/thumbnails (regenerated on demand)"@,
            replies[4],
        ),
        plain_target("trash"@, "Trash"@, "~/.local/share/Trash"@, replies[5]),
    ]
}

fn target(
    key: &'static str,
    label: &'static str,
    detail: &str,
    reply: &Option<String>,
) -> (r: CleanTarget)
    ensures
        r@ == plain_target(key@, label@, detail@, opt(*reply)),
{
    CleanTarget { key, label, detail: detail.to_owned(), size: measure(key, reply), items: 0 }
}

/// The views of the replies to the probes.
pub open spec fn replies_view(replies: Seq<Option<String>>) -> Seq<Option<Seq<char>>> {
    replies.map_values(|r: Option<String>| opt(r))
}

/// All targets: those that every system has, then those of the snap and
/// flatpak stores where they are present.
pub fn measure_all(
    replies: &[Option<String>],
    snap: Option<CleanTarget>,
    flatpak: Option<CleanTarget>,
) -> (r: Vec<CleanTarget>)
    requires
        replies@.len() == standard_keys().len(),
    ensures
        views(r@) == standard_targets(replies_view(replies@)) + (match snap {
            Some(t) => seq![t@],
            None => seq![],
        }) + (match flatpak {
            Some(t) => seq![t@],
            None => seq![],
        }),
{
    let mut r: Vec<CleanTarget> = Vec::new();
    r.push(
        target("apt", "Apt package cache", "Downloaded .deb files in /var/cache/apt", &replies[0]),
    );
    r.push(
        target(
            "autoremove",
            "Unused packages",
            "Auto-removable dependencies & old kernels",
            &replies[1],
        ),
    );
    r.push(
        target("journal", "System logs", "Old journald logs (keeps the last 3 days)", &replies[2]),
    );
    r.push(target("crash", "Crash reports", "Saved crash dumps in /var/crash", &replies[3]));
    r.push(
        target(
            "thumbnails",
            "Thumbnail cache",
            "~/.cache/thumbnails (regenerated on demand)",
            &replies[4],
        ),
    );
    r.push(target("trash", "Trash", "~/.local/share/Trash", &replies[5]));
    assert(views(r@) =~= standard_targets(replies_view(replies@)));
    if let Some(t) = snap {
        r.push(t);
    }
    if let Some(t) = flatpak {
        r.push(t);
    }
    r
}

/// Where snapd keeps the file of a revision.
pub open spec fn seed_path(r: RevisionView) -> Seq<char> {
    "/var/lib/snapd/snaps/"@ + r.0 + "_"@ + r.1 + ".snap"@
}

pub fn snap_seed(name: &str, rev: &str) -> (r: String)
    ensures
        r@ == seed_path((name@, rev@)),
{
    let mut p = "/var/lib/snapd/snaps/".to_owned();
    p.append(name);
    p.append("_");
    p.append(rev);
    p.append(".snap");
    p
}

/// The target of old snap revisions: `n` of them, taking `size` bytes.
pub open spec fn snap_target(n: nat, size: u64) -> TargetView {
    TargetView {
        key: "snap"@,
        label: "Old Snap revisions"@,
        detail: if n == 0 {
            "No disabled revisions — snapd is tidy"@
        } else {
            decimal(n) + " old disabled revision(s) kept by snapd"@
        },
        size,
        items: n,
    }
}

/// Sizes the old snap revisions from the sizes of their files, zero for a
/// file that could not be read.
pub fn measure_snap(sizes: &[u64]) -> (r: CleanTarget)
    requires
        sum_of(sizes@) <= u64::MAX,
    ensures
        r@ == snap_target(sizes@.len(), sum_of(sizes@) as u64),
{
    let n = sizes.len();
    let size: u64 = match checked_sum(sizes) {
        Some(s) => s,
        None => 0,
    };
    let detail = if n == 0 {
        "No disabled revisions — snapd is tidy".to_owned()
    } else {
        let mut d = show(n as u64);
        d.append(" old disabled revision(s) kept by snapd");
        d
    };
    CleanTarget { key: "snap", label: "Old Snap revisions", detail, size, items: n }
}

/// The target of unused runtimes: `n` of them, taking `size` bytes.
pub open spec fn flatpak_target(n: nat, size: u64) -> TargetView {
    TargetView {
        key: "flatpak"@,
        label: "Flatpak unused runtimes"@,
        detail: if n == 0 {
            "Every installed runtime is still needed"@
        } else {
            decimal(n) + " runtime(s) no installed app needs"@
        },
        size,
        items: n,
    }
}

/// Whether the sizes of unused runtimes add up within 64 bits.
pub fn flatpak_fits(unused: &[(String, String)], sizes: &[(String, String, u64)]) -> (r: bool)
    ensures
        r == (sum_of(sizes_in(views(sizes@), views(unused@))) <= u64::MAX),
{
    checked_sum(&look_up_all(sizes, unused)).is_some()
}

/// Sizes the unused runtimes from the sizes of all references.
pub fn measure_flatpak(unused: &[(String, String)], sizes: &[(String, String, u64)]) -> (r:
    CleanTarget)
    requires
        sum_of(sizes_in(views(sizes@), views(unused@))) <= u64::MAX,
    ensures
        r@ == flatpak_target(
            unused@.len(),
            sum_of(sizes_in(views(sizes@), views(unused@))) as u64,
        ),
{
    let n = unused.len();
    let size: u64 = match checked_sum(&look_up_all(sizes, unused)) {
        Some(s) => s,
        None => 0,
    };
    let detail = if n == 0 {
        "Every installed runtime is still needed".to_owned()
    } else {
        let mut d = show(n as u64);
        d.append(" runtime(s) no installed app needs");
        d
    };
    CleanTarget { key: "flatpak", label: "Flatpak unused runtimes", detail, size, items: n }
}

// --- cleaning ---------------------------------------------------------------

/// The command that removes one snap revision.
pub open spec fn snap_removal(r: RevisionView) -> Seq<char> {
    "snap remove "@ + r.0 + " --revision="@ + r.1
}

/// The command that cleans the target of a key, and whether it needs the
/// administrator. The snap revisions are those disabled right now.
pub open spec fn command_of(key: Seq<char>, home: Seq<char>, revs: Seq<RevisionView>) -> Option<
    (Seq<char>, bool),
> {
    if key == "apt"@ {
        Some(("apt-get clean"@, true))
    } else if key == "autoremove"@ {
        Some(("apt-get -y autoremove --purge"@, true))
    } else if key == "journal"@ {
        Some(("journalctl --rotate ; journalctl --vacuum-time=3d"@, true))
    } else if key == "crash"@ {
        Some(("rm -rf /var/crash/*"@, true))
    } else if key == "thumbnails"@ {
        Some(("rm -rf '"@ + home + "/.cache/thumbnails'"@, false))
    } else if key == "trash"@ {
        Some(
            (
                "rm -rf '"@ + home + "/.local/share/Trash/files' '"@ + home
                    + "/.local/share/Trash/info'"@,
                false,
            ),
        )
    } else if key == "snap"@ {
        if revs.len() == 0 {
            None
        } else {
            Some((joined(revs.map_values(|r: RevisionView| snap_removal(r)), " ; "@), true))
        }
    } else if key == "flatpak"@ {
        Some(("flatpak uninstall --unused -y --noninteractive"@, false))
    } else {
        None
    }
}

fn snap_removals(revs: &[(String, String)]) -> (r: String)
    ensures
        r@ == joined(views(revs@).map_values(|r: RevisionView| snap_removal(r)), " ; "@),
{
    broadcast use lemma_views_push;

    let ghost all = views(revs@).map_values(|r: RevisionView| snap_removal(r));
    let mut cmds: Vec<String> = Vec::new();
    let mut i: usize = 0;
    assert(views(cmds@) =~= all.take(0));
    while i < revs.len()
        invariant
            i <= revs@.len(),
            all == views(revs@).map_values(|r: RevisionView| snap_removal(r)),
            views(cmds@) == all.take(i as int),
        decreases revs@.len() - i,
    {
        assert(all[i as int] == snap_removal((revs@[i as int].0@, revs@[i as int].1@)));
        let mut c = "snap remove ".to_owned();
        c.append(revs[i].0.as_str());
        c.append(" --revision=");
        c.append(revs[i].1.as_str());
        cmds.push(c);
        i += 1;
        assert(all.take(i as int) =~= all.take(i as int - 1).push(all[i as int - 1]));
    }
    assert(all.take(i as int) =~= all);
    join(&cmds, " ; ")
}

/// The view of a command.
pub open spec fn command_view(c: Option<(String, bool)>) -> Option<(Seq<char>, bool)> {
    match c {
        Some((cmd, root)) => Some((cmd@, root)),
        None => None,
    }
}

pub fn clean_command(key: &str, home: &str, revs: &[(String, String)]) -> (r: Option<
    (String, bool),
>)
    ensures
        command_view(r) == command_of(key@, home@, views(revs@)),
{
    let k = to_chars(key);
    if is_text(&k, "apt") {
        Some(("apt-get clean".to_owned(), true))
    } else if is_text(&k, "autoremove") {
        Some(("apt-get -y autoremove --purge".to_owned(), true))
    } else if is_text(&k, "journal") {
        Some(("journalctl --rotate ; journalctl --vacuum-time=3d".to_owned(), true))
    } else if is_text(&k, "crash") {
        Some(("rm -rf /var/crash/*".to_owned(), true))
    } else if is_text(&k, "thumbnails") {
        let mut c = "rm -rf '".to_owned();
        c.append(home);
        c.append("/.cache/thumbnails'");
        Some((c, false))
    } else if is_text(&k, "trash") {
        let mut c = "rm -rf '".to_owned();
        c.append(home);
        c.append("/.local/share/Trash/files' '");
        c.append(home);
        c.append("/.local/share/Trash/info'");
        Some((c, false))
    } else if is_text(&k, "snap") {
        if revs.len() == 0 {
            None
        } else {
            Some((snap_removals(revs), true))
        }
    } else if is_text(&k, "flatpak") {
        Some(("flatpak uninstall --unused -y --noninteractive".to_owned(), false))
    } else {
        None
    }
}

/// The commands for some keys that need the administrator, or those that do
/// not, in order.
pub open spec fn commands_for(
    keys: Seq<Seq<char>>,
    home: Seq<char>,
    revs: Seq<RevisionView>,
    root: bool,
) -> Seq<Seq<char>> {
    kept(
        keys,
        |key: Seq<char>|
            match command_of(key, home, revs) {
                Some((cmd, r)) => if r == root {
                    Some(cmd)
                } else {
                    None
                },
                None => None,
            },
    )
}

/// One script that runs some commands one after the other, if there are any.
pub open spec fn script_of(cmds: Seq<Seq<char>>) -> Option<Seq<char>> {
    if cmds.len() == 0 {
        None
    } else {
        Some(joined(cmds, " ; "@) + " 2>&1"@)
    }
}

fn commands(keys: &[String], home: &str, revs: &[(String, String)], root: bool) -> (r: Vec<String>)
    ensures
        views(r@) == commands_for(views(keys@), home@, views(revs@), root),
{
    broadcast use lemma_views_push;

    let ghost vs = views(keys@);
    let ghost rv = views(revs@);
    let ghost f = |key: Seq<char>|
        match command_of(key, home@, rv) {
            Some((cmd, r)) => if r == root {
                Some(cmd)
            } else {
                None
            },
            None => None,
        };
    let mut r: Vec<String> = Vec::new();
    let mut i: usize = 0;
    proof {
        lemma_kept_ends(views(r@), vs, f);
        assert(views(r@) =~= Seq::<Seq<char>>::empty());
    }
    while i < keys.len()
        invariant
            i <= keys@.len(),
            vs == views(keys@),
            rv == views(revs@),
            f == (|key: Seq<char>|
                match command_of(key, home@, rv) {
                    Some((cmd, r)) => if r == root {
                        Some(cmd)
                    } else {
                        None
                    },
                    None => None,
                }),
            views(r@) + kept(vs.skip(i as int), f) == kept(vs, f),
        decreases keys@.len() - i,
    {
        proof {
            lemma_kept_step(views(r@), vs, i as int, f);
        }
        assert(vs[i as int] == keys@[i as int]@);
        if let Some((cmd, needs)) = clean_command(keys[i].as_str(), home, revs) {
            if needs == root {
                r.push(cmd);
            }
        }
        i += 1;
    }
    proof {
        lemma_kept_ends(views(r@), vs, f);
    }
    r
}

fn script(cmds: &[String]) -> (r: Option<String>)
    ensures
        opt(r) == script_of(views(cmds@)),
{
    if cmds.len() == 0 {
        None
    } else {
        let mut s = join(cmds, " ; ");
        s.append(" 2>&1");
        Some(s)
    }
}

/// What a clean runs: one script as the user, then one as the administrator.
pub struct Plan {
    pub user: Option<String>,
    pub root: Option<String>,
}

/// Plans the clean of some keys.
pub fn plan(keys: &[String], home: &str, revs: &[(String, String)]) -> (r: Plan)
    ensures
        opt(r.user) == script_of(commands_for(views(keys@), home@, views(revs@), false)),
        opt(r.root) == script_of(commands_for(views(keys@), home@, views(revs@), true)),
{
    let user = commands(keys, home, revs, false);
    let root = commands(keys, home, revs, true);
    Plan { user: script(&user), root: script(&root) }
}

/// Every key that a clean knows.
pub open spec fn known_keys() -> Seq<Seq<char>> {
    standard_keys().push("snap"@).push("flatpak"@)
}

/// Nothing is ever run for a key that is not one of the eight known ones, and
/// nothing for snap without a revision that is disabled right now.
pub proof fn law_only_known_keys(key: Seq<char>, home: Seq<char>, revs: Seq<RevisionView>)
    ensures
        command_of(key, home, revs) is Some ==> known_keys().contains(key),
        command_of(key, home, revs) is Some <== known_keys().contains(key) && (key == "snap"@
            ==> revs.len() > 0),
{
    let k = known_keys();
    assert(k[0] == "apt"@ && k[1] == "autoremove"@ && k[2] == "journal"@ && k[3] == "crash"@ && k[4]
        == "thumbnails"@ && k[5] == "trash"@ && k[6] == "snap"@ && k[7] == "flatpak"@);
}

/// A command that runs as the user: it removes the thumbnail cache, the trash,
/// or the runtimes that flatpak itself calls unused.
pub open spec fn is_user_command(c: Seq<char>, home: Seq<char>) -> bool {
    ||| c == "rm -rf '"@ + home + "/.cache/thumbnails'"@
    ||| c == "rm -rf '"@ + home + "/.local/share/Trash/files' '"@ + home
        + "/.local/share/Trash/info'"@
    ||| c == "flatpak uninstall --unused -y --noninteractive"@
}

/// A command that runs as the administrator: it clears package caches, unused
/// packages, old logs or crash reports, or removes the given snap revisions.
pub open spec fn is_root_command(c: Seq<char>, revs: Seq<RevisionView>) -> bool {
    ||| c == "apt-get clean"@
    ||| c == "apt-get -y autoremove --purge"@
    ||| c == "journalctl --rotate ; journalctl --vacuum-time=3d"@
    ||| c == "rm -rf /var/crash/*"@
    ||| c == joined(revs.map_values(|r: RevisionView| snap_removal(r)), " ; "@)
}

/// Whatever is ticked, only caches, logs, unused packages and the trash are
/// touched: every command is one of a fixed few.
pub proof fn law_documents_are_untouched(
    keys: Seq<Seq<char>>,
    home: Seq<char>,
    revs: Seq<RevisionView>,
)
    ensures
        forall|i: int|
            0 <= i < commands_for(keys, home, revs, false).len() ==> is_user_command(
                #[trigger] commands_for(keys, home, revs, false)[i],
                home,
            ),
        forall|i: int|
            0 <= i < commands_for(keys, home, revs, true).len() ==> is_root_command(
                #[trigger] commands_for(keys, home, revs, true)[i],
                revs,
            ),
    decreases keys.len(),
{
    if keys.len() > 0 {
        let rest = keys.skip(1);
        law_documents_are_untouched(rest, home, revs);
        assert forall|i: int| 0 <= i < commands_for(keys, home, revs, false).len() implies
            is_user_command(#[trigger] commands_for(keys, home, revs, false)[i], home) by {
            let all = commands_for(keys, home, revs, false);
            let later = commands_for(rest, home, revs, false);
            if all.len() == later.len() {
                assert(later[i] == all[i]);
            } else if i > 0 {
                assert(later[i - 1] == all[i]);
            }
        }
        assert forall|i: int| 0 <= i < commands_for(keys, home, revs, true).len() implies
            is_root_command(#[trigger] commands_for(keys, home, revs, true)[i], revs) by {
            let all = commands_for(keys, home, revs, true);
            let later = commands_for(rest, home, revs, true);
            if all.len() == later.len() {
                assert(later[i] == all[i]);
            } else if i > 0 {
                assert(later[i - 1] == all[i]);
            }
        }
    }
}

/// What runs as the administrator does not depend on the home directory.
pub proof fn law_root_commands_fixed(
    keys: Seq<Seq<char>>,
    home: Seq<char>,
    other: Seq<char>,
    revs: Seq<RevisionView>,
)
    ensures
        commands_for(keys, home, revs, true) == commands_for(keys, other, revs, true),
    decreases keys.len(),
{
    if keys.len() > 0 {
        law_root_commands_fixed(keys.skip(1), home, other, revs);
        reveal_strlit("apt");
        reveal_strlit("autoremove");
        reveal_strlit("journal");
        reveal_strlit("crash");
        reveal_strlit("thumbnails");
        reveal_strlit("trash");
        reveal_strlit("snap");
        reveal_strlit("flatpak");
    }
}

// --- state ------------------------------------------------------------------

/// What the cleanup tab shows.
pub struct CleanupState {
    pub scanning: bool,
    pub scanned: bool,
    pub targets: Vec<CleanTarget>,
    pub error: Option<String>,
    pub busy: bool,
    pub log: Vec<String>,
    pub done: bool,
    pub ok: bool,
}

#[verifier::ext_equal]
pub struct CleanupView {
    pub scanning: bool,
    pub scanned: bool,
    pub targets: Seq<TargetView>,
    pub error: Option<Seq<char>>,
    pub busy: bool,
    pub log: Seq<Seq<char>>,
    pub done: bool,
    pub ok: bool,
}

impl View for CleanupState {
    type V = CleanupView;

    open spec fn view(&self) -> CleanupView {
        CleanupView {
            scanning: self.scanning,
            scanned: self.scanned,
            targets: views(self.targets@),
            error: opt(self.error),
            busy: self.busy,
            log: views(self.log@),
            done: self.done,
            ok: self.ok,
        }
    }
}

impl CleanupView {
    /// Nothing measured, nothing running.
    pub open spec fn initial() -> CleanupView {
        CleanupView {
            scanning: false,
            scanned: false,
            targets: Seq::empty(),
            error: None,
            busy: false,
            log: Seq::empty(),
            done: false,
            ok: false,
        }
    }
}

impl Default for CleanupState {
    fn default() -> (r: Self)
        ensures
            r@ == CleanupView::initial(),
    {
        let r = CleanupState {
            scanning: false,
            scanned: false,
            targets: Vec::new(),
            error: None,
            busy: false,
            log: Vec::new(),
            done: false,
            ok: false,
        };
        assert(r@ =~= CleanupView::initial());
        r
    }
}

/// The sizes of some targets.
pub open spec fn target_sizes(targets: Seq<TargetView>) -> Seq<u64> {
    targets.map_values(|t: TargetView| t.size)
}

fn sizes_listed(targets: &[CleanTarget]) -> (r: Vec<u64>)
    ensures
        r@ == target_sizes(views(targets@)),
{
    let ghost all = target_sizes(views(targets@));
    let mut r: Vec<u64> = Vec::new();
    let mut i: usize = 0;
    while i < targets.len()
        invariant
            i <= targets@.len(),
            all == target_sizes(views(targets@)),
            r@ == all.take(i as int),
        decreases targets@.len() - i,
    {
        r.push(targets[i].size);
        i += 1;
        assert(r@ =~= all.take(i as int));
    }
    assert(all.take(i as int) =~= all);
    r
}

impl CleanupState {
    /// Whether the sizes add up within 64 bits.
    pub fn total_fits(&self) -> (r: bool)
        ensures
            r == (sum_of(target_sizes(self@.targets)) <= u64::MAX),
    {
        checked_sum(&sizes_listed(&self.targets)).is_some()
    }

    /// What all targets could free together.
    pub fn total(&self) -> (r: u64)
        requires
            sum_of(target_sizes(self@.targets)) <= u64::MAX,
        ensures
            r == sum_of(target_sizes(self@.targets)),
    {
        match checked_sum(&sizes_listed(&self.targets)) {
            Some(t) => t,
            None => 0,
        }
    }
}

/// The cleanup tab's worker: what may start, and what each outcome changes.
pub struct Cleanup {
    pub state: CleanupState,
}

impl View for Cleanup {
    type V = CleanupView;

    open spec fn view(&self) -> CleanupView {
        self.state@
    }
}

impl Cleanup {
    pub fn new() -> (r: Self)
        ensures
            r@ == CleanupView::initial(),
    {
        Cleanup { state: CleanupState::default() }
    }

    pub fn is_busy(&self) -> (r: bool)
        ensures
            r == self@.busy,
    {
        self.state.busy
    }

    pub fn is_scanning(&self) -> (r: bool)
        ensures
            r == self@.scanning,
    {
        self.state.scanning
    }

    /// Whether a measurement starts now.
    pub fn scan(&mut self) -> (start: bool)
        ensures
            start == !(old(self)@.scanning || old(self)@.busy),
            final(self)@ == if start {
                CleanupView { scanning: true, error: None, ..old(self)@ }
            } else {
                old(self)@
            },
    {
        if self.is_scanning() || self.is_busy() {
            return false;
        }
        self.state.scanning = true;
        self.state.error = None;
        true
    }

    /// Takes in a finished measurement.
    pub fn measured(&mut self, targets: Vec<CleanTarget>)
        ensures
            final(self)@ == (CleanupView {
                targets: views(targets@),
                scanning: false,
                scanned: true,
                ..old(self)@
            }),
    {
        self.state.targets = targets;
        self.state.scanning = false;
        self.state.scanned = true;
    }

    /// Whether a clean of some keys starts now.
    pub fn clean(&mut self, keys: &[String]) -> (start: bool)
        ensures
            start == !(old(self)@.busy || old(self)@.scanning || keys@.len() == 0),
            final(self)@ == if start {
                CleanupView {
                    busy: true,
                    done: false,
                    ok: false,
                    log: seq!["Cleaning…"@],
                    error: None,
                    ..old(self)@
                }
            } else {
                old(self)@
            },
    {
        broadcast use lemma_views_push;

        if self.is_busy() || self.is_scanning() || keys.len() == 0 {
            return false;
        }
        self.state.busy = true;
        self.state.done = false;
        self.state.ok = false;
        let mut log: Vec<String> = Vec::new();
        log.push("Cleaning…".to_owned());
        self.state.log = log;
        self.state.error = None;
        assert(self@.log =~= seq!["Cleaning…"@]);
        true
    }

    /// Adds a line to the transcript.
    pub fn push_log(&mut self, line: String)
        ensures
            final(self)@ == (CleanupView {
                log: newest_lines(old(self)@.log.push(line@)),
                ..old(self)@
            }),
    {
        push_log(&mut self.state.log, line);
    }

    /// Takes in a clean that ran, with a fresh measurement.
    pub fn cleaned(&mut self, targets: Vec<CleanTarget>, ok: bool)
        ensures
            final(self)@ == (CleanupView {
                targets: views(targets@),
                busy: false,
                done: true,
                ok,
                error: if !ok && old(self)@.error is None {
                    Some("Some items couldn't be cleaned. See the log above."@)
                } else {
                    old(self)@.error
                },
                ..old(self)@
            }),
    {
        self.state.targets = targets;
        self.state.busy = false;
        self.state.done = true;
        self.state.ok = ok;
        if !ok && self.state.error.is_none() {
            self.state.error = Some(
                "Some items couldn't be cleaned. See the log above.".to_owned(),
            );
        }
    }

    /// Puts a finished clean's transcript away.
    pub fn dismiss(&mut self)
        ensures
            final(self)@ == (CleanupView { log: Seq::empty(), done: false, ..old(self)@ }),
    {
        self.state.log.clear();
        self.state.done = false;
        assert(views(self.state.log@) =~= Seq::empty());
    }
}

// --- what is shown ----------------------------------------------------------

/// Whether there is anything to clean in a target.
pub open spec fn selectable(t: TargetView) -> bool {
    t.size > 0 || t.items > 0
}

impl CleanTarget {
    pub fn is_selectable(&self) -> (r: bool)
        ensures
            r == selectable(self@),
    {
        self.size > 0 || self.items > 0
    }

    /// The size, or the number of items where sizing failed.
    pub fn size_text(&self) -> (r: String)
        ensures
            r@ == (if self@.size == 0 && self@.items > 0 {
                decimal(self@.items) + " items"@
            } else {
                bytes_text(self@.size as nat)
            }),
    {
        if self.size == 0 && self.items > 0 {
            let mut s = show(self.items as u64);
            s.append(" items");
            s
        } else {
            fmt_bytes(self.size)
        }
    }
}

/// The keys of the targets in which there is anything to clean.
pub open spec fn selectable_keys(targets: Seq<TargetView>) -> Seq<Seq<char>> {
    kept(
        targets,
        |t: TargetView|
            if selectable(t) {
                Some(t.key)
            } else {
                None
            },
    )
}

/// The sizes of the selected targets.
pub open spec fn selected_sizes(targets: Seq<TargetView>, keys: Set<Seq<char>>) -> Seq<u64> {
    kept(
        targets,
        |t: TargetView|
            if keys.contains(t.key) {
                Some(t.size)
            } else {
                None
            },
    )
}

/// What is said of a selection that would free `size` bytes.
pub open spec fn selected_text(n: nat, size: u64) -> Seq<char> {
    decimal(n) + " selected  ·  frees ~"@ + bytes_text(size as nat)
}

impl CleanupState {
    /// The keys that may stay selected.
    pub fn selectable_keys(&self) -> (r: Vec<String>)
        ensures
            views(r@) == selectable_keys(self@.targets),
    {
        broadcast use lemma_views_push;

        let ghost vs = self@.targets;
        let ghost f = |t: TargetView|
            if selectable(t) {
                Some(t.key)
            } else {
                None
            };
        let mut r: Vec<String> = Vec::new();
        let mut i: usize = 0;
        proof {
            lemma_kept_ends(views(r@), vs, f);
            assert(views(r@) =~= Seq::<Seq<char>>::empty());
        }
        while i < self.targets.len()
            invariant
                i <= self.targets@.len(),
                vs == views(self.targets@),
                f == (|t: TargetView|
                    if selectable(t) {
                        Some(t.key)
                    } else {
                        None
                    }),
                views(r@) + kept(vs.skip(i as int), f) == kept(vs, f),
            decreases self.targets@.len() - i,
        {
            proof {
                lemma_kept_step(views(r@), vs, i as int, f);
            }
            assert(vs[i as int] == self.targets@[i as int]@);
            if self.targets[i].is_selectable() {
                r.push(self.targets[i].key.to_owned());
            }
            i += 1;
        }
        proof {
            lemma_kept_ends(views(r@), vs, f);
        }
        r
    }

    /// What the selected targets would free together, where that fits in 64
    /// bits.
    pub fn selected_size(&self, keys: &Selection) -> (r: Option<u64>)
        ensures
            r == (if sum_of(selected_sizes(self@.targets, keys@)) <= u64::MAX {
                Some(sum_of(selected_sizes(self@.targets, keys@)) as u64)
            } else {
                None
            }),
    {
        let ghost vs = self@.targets;
        let ghost f = |t: TargetView|
            if keys@.contains(t.key) {
                Some(t.size)
            } else {
                None
            };
        let mut sizes: Vec<u64> = Vec::new();
        let mut i: usize = 0;
        proof {
            lemma_kept_ends(sizes@, vs, f);
        }
        while i < self.targets.len()
            invariant
                i <= self.targets@.len(),
                vs == views(self.targets@),
                f == (|t: TargetView|
                    if keys@.contains(t.key) {
                        Some(t.size)
                    } else {
                        None
                    }),
                sizes@ + kept(vs.skip(i as int), f) == kept(vs, f),
            decreases self.targets@.len() - i,
        {
            proof {
                lemma_kept_step(sizes@, vs, i as int, f);
            }
            assert(vs[i as int] == self.targets@[i as int]@);
            if keys.contains(self.targets[i].key) {
                sizes.push(self.targets[i].size);
            }
            i += 1;
        }
        proof {
            lemma_kept_ends(sizes@, vs, f);
        }
        checked_sum(&sizes)
    }
}

/// What is said of a selection.
pub fn selected_line(n: usize, size: u64) -> (r: String)
    ensures
        r@ == selected_text(n as nat, size),
{
    let mut s = show(n as u64);
    s.append(" selected  ·  frees ~");
    let b = fmt_bytes(size);
    s.append(b.as_str());
    s
}

// --- what the measures and commands must satisfy ----------------------------

/// A disk usage report counts the number that it begins with.
pub proof fn law_usage(word: Seq<char>, rest: Seq<char>)
    requires
        word.len() > 0,
        spaceless(word),
        rest.len() > 0 ==> is_space(rest[0]),
    ensures
        (match bounded_of(word, u64::MAX as nat) {
            Some(n) => usage_of(word + rest) == n,
            None => usage_of(word + rest) == 0,
        }),
        usage_of(Seq::empty()) == 0,
{
    let none = Seq::<char>::empty();
    law_words(none, word, rest);
    assert(none + word + rest =~= word + rest);
    law_no_number(none, 0, u64::MAX as nat);
}

/// A line says what will be freed between its last comma and these words; a
/// line without the words, or without a comma ahead of them, says nothing.
pub proof fn law_freed(front: Seq<char>, amount: Seq<char>, tail: Seq<char>, line: Seq<char>)
    requires
        !amount.contains(','),
        find_in(front + seq![','] + amount + "will be freed"@ + tail, "will be freed"@) == Some(
            front.len() as int + 1 + amount.len(),
        ),
    ensures
        freed_of(front + seq![','] + amount + "will be freed"@ + tail) == Some(
            size_unit_of(trimmed(amount)),
        ),
        !occurs(line, "will be freed"@) ==> freed_of(line) is None,
{
    let s = front + seq![','] + amount + "will be freed"@ + tail;
    let head = s.take(front.len() as int + 1 + amount.len());
    assert(head =~= front + seq![','] + amount);
    law_last_of(front, amount, ',');
    assert(head.skip(front.len() as int + 1) =~= amount);
}

/// The first line that says what will be freed counts.
pub proof fn law_autoremove(line: Seq<char>, rest: Seq<char>)
    requires
        !line.contains('\n'),
        !seq!['\r'].is_suffix_of(line),
    ensures
        (match freed_of(line) {
            Some(n) => autoremove_of(line + seq!['\n'] + rest) == n,
            None => autoremove_of(line + seq!['\n'] + rest) == autoremove_of(rest),
        }),
        autoremove_of(Seq::empty()) == 0,
{
    law_rows::<FreedLine>(line, rest);
    assert(<FreedLine as LineReader>::row_of(line) == freed_of(line));
}

/// The first word that is a size above zero counts.
pub proof fn law_journal(word: Seq<char>, rest: Seq<char>)
    requires
        word.len() > 0,
        spaceless(word),
        rest.len() > 0 ==> is_space(rest[0]),
    ensures
        compact_size_of(word) > 0 ==> journal_of(word + rest) == compact_size_of(word),
        compact_size_of(word) == 0 ==> journal_of(word + rest) == journal_of(rest),
        journal_of(Seq::empty()) == 0,
{
    let none = Seq::<char>::empty();
    law_words(none, word, rest);
    assert(none + word + rest =~= word + rest);
    let w = words_of(word + rest);
    assert(w[0] == word);
    assert(w.skip(1) =~= words_of(rest));
    let f = reader::<SizeWord>();
    assert(f(word) == <SizeWord as LineReader>::row_of(word));
}

/// Which texts name a snap, a revision, and a part of a flatpak reference.
pub proof fn law_names(s: Seq<char>)
    ensures
        is_snap_name(s) <==> 0 < s.len() && s.len() < 100 && forall|i: int|
            0 <= i < s.len() ==> ('a' <= #[trigger] s[i] && s[i] <= 'z') || ('0' <= s[i] && s[i]
                <= '9') || s[i] == '-',
        is_snap_rev(s) <==> 0 < s.len() && s.len() < 20 && forall|i: int|
            0 <= i < s.len() ==> ('0' <= #[trigger] s[i] && s[i] <= '9') || ('a' <= s[i] && s[i]
                <= 'z') || ('A' <= s[i] && s[i] <= 'Z'),
        is_flatpak_part(s) <==> 0 < s.len() && s.len() < 200 && forall|i: int|
            0 <= i < s.len() ==> ('0' <= #[trigger] s[i] && s[i] <= '9') || ('a' <= s[i] && s[i]
                <= 'z') || ('A' <= s[i] && s[i] <= 'Z') || s[i] == '.' || s[i] == '_' || s[i]
                == '-',
{
    reveal_strlit("");
    reveal_strlit("._-");
    assert(""@ =~= Seq::<char>::empty());
    let x = "._-"@;
    assert(x =~= seq!['.', '_', '-']);
    law_plain(s, ""@, 20);
    law_plain(s, x, 200);
    assert forall|c: char| x.contains(c) <==> c == '.' || c == '_' || c == '-' by {
        assert(x[0] == '.' && x[1] == '_' && x[2] == '-');
    }
}

/// A row of the snap listing stands for a disabled revision exactly where it
/// has six columns or more, its notes say so, and name and revision are valid.
pub proof fn law_disabled_row(line: Seq<char>, flags: Seq<Seq<char>>)
    requires
        words_of(line).len() > 0,
        flags.len() > 0,
        forall|i: int| 0 <= i < flags.len() ==> !(#[trigger] flags[i]).contains(','),
        words_of(line)[words_of(line).len() - 1] == joined(flags, ","@),
    ensures
        ({
            let w = words_of(line);
            &&& disabled_row(line) is Some <==> w.len() >= 6 && flags.contains("disabled"@)
                && is_snap_name(w[0]) && is_snap_rev(w[2])
            &&& disabled_row(line) is Some ==> disabled_row(line) == Some((w[0], w[2]))
        }),
{
    reveal_strlit(",");
    assert(","@ =~= seq![',']);
    law_split_joined(flags, ',');
    assert(words_of(line).last() == words_of(line)[words_of(line).len() - 1]);
}

/// A row stands for an unused runtime exactly where it is numbered, and an id
/// with a dot and a branch follow.
pub proof fn law_unused_row(line: Seq<char>, digits: Seq<char>)
    requires
        words_of(line).len() > 0,
        words_of(line)[0] == digits + seq!['.'],
    ensures
        ({
            let w = words_of(line);
            &&& unused_row(line) is Some <==> w.len() >= 3 && digits.len() > 0 && (forall|i: int|
                0 <= i < digits.len() ==> '0' <= #[trigger] digits[i] && digits[i] <= '9')
                && w[1].contains('.') && is_flatpak_part(w[1]) && is_flatpak_part(w[2])
            &&& unused_row(line) is Some ==> unused_row(line) == Some((w[1], w[2]))
        }),
{
    reveal_strlit(".");
    assert("."@ =~= seq!['.']);
    let w = words_of(line);
    law_affixes(digits, "."@, w[0]);
    if w.len() >= 3 {
        lemma_find_char(w[1], "."@);
        lemma_run_before(w[1], '.');
        if w[1].contains('.') {
            let k = choose|k: int| 0 <= k < w[1].len() && w[1][k] == '.';
            assert(run_before(w[1], '.') <= k);
        } else {
            lemma_run_before_absent(w[1], '.');
        }
    }
}

/// A row without a full stop behind its first word stands for no runtime.
pub proof fn law_unnumbered_row(line: Seq<char>)
    requires
        words_of(line).len() == 0 || words_of(line)[0].len() == 0 || words_of(line)[0].last() != '.',
    ensures
        unused_row(line) is None,
{
    reveal_strlit(".");
    let w = words_of(line);
    if w.len() > 0 {
        lemma_prefix_chars(w[0], "."@);
        if "."@.is_suffix_of(w[0]) {
            assert(w[0][w[0].len() - 1 + 0] == "."@[0]);
        }
    }
}

/// A sized reference is read by its id and its branch, with or without the
/// kind in front; one of any other number of segments is none.
pub proof fn law_sized_row(r: Seq<char>, segs: Seq<Seq<char>>, size: Seq<char>)
    requires
        !r.contains('\t'),
        segs.len() > 0,
        forall|i: int| 0 <= i < segs.len() ==> !(#[trigger] segs[i]).contains('/'),
        trimmed(r) == joined(segs, "/"@),
    ensures
        ({
            let row = sized_row(r + seq!['\t'] + size);
            let n = size_unit_of(trimmed(size));
            &&& segs.len() == 3 ==> row == Some((segs[0], segs[2], n))
            &&& segs.len() == 4 ==> row == Some((segs[1], segs[3], n))
            &&& segs.len() != 3 && segs.len() != 4 ==> row is None
        }),
        sized_row(r) is None,
{
    reveal_strlit("\t");
    reveal_strlit("/");
    assert("\t"@ =~= seq!['\t']);
    assert("/"@ =~= seq!['/']);
    law_split_once(r, size, '\t');
    law_split_joined(segs, '/');
}

/// The size counted for a reference is that of the first row with the same id
/// and the same branch, and nothing where no row has both.
pub proof fn law_size_of_reference(sizes: Seq<SizedView>, r: RevisionView, k: int)
    ensures
        0 <= k < sizes.len() && sizes[k].0 == r.0 && sizes[k].1 == r.1 && (forall|i: int|
            0 <= i < k ==> !((#[trigger] sizes[i]).0 == r.0 && sizes[i].1 == r.1)) ==> size_in(
            sizes,
            r,
        ) == sizes[k].2,
        (forall|i: int| 0 <= i < sizes.len() ==> !((#[trigger] sizes[i]).0 == r.0 && sizes[i].1 == r.1))
            ==> size_in(sizes, r) == 0,
    decreases sizes.len(),
{
    if sizes.len() > 0 {
        let rest = sizes.skip(1);
        law_size_of_reference(rest, r, k - 1);
        assert(forall|i: int| 0 <= i < rest.len() ==> #[trigger] rest[i] == sizes[i + 1]);
        let found = sizes[0].0 == r.0 && sizes[0].1 == r.1;
        if forall|i: int|
            0 <= i < sizes.len() ==> !((#[trigger] sizes[i]).0 == r.0 && sizes[i].1 == r.1) {
            assert(!found);
            assert forall|i: int| 0 <= i < rest.len() implies !((#[trigger] rest[i]).0 == r.0
                && rest[i].1 == r.1) by {
                assert(rest[i] == sizes[i + 1]);
            }
        }
        if 0 < k < sizes.len() && (forall|i: int|
            0 <= i < k ==> !((#[trigger] sizes[i]).0 == r.0 && sizes[i].1 == r.1)) {
            assert(!found);
            assert forall|i: int| 0 <= i < k - 1 implies !((#[trigger] rest[i]).0 == r.0
                && rest[i].1 == r.1) by {
                assert(rest[i] == sizes[i + 1]);
            }
        }
    }
}

/// The target of unused runtimes counts them and adds up their sizes.
pub proof fn law_unused_sizes(sizes: Seq<SizedView>, refs: Seq<RevisionView>, r: RevisionView)
    ensures
        sum_of(sizes_in(sizes, refs.push(r))) == sum_of(sizes_in(sizes, refs)) + size_in(sizes, r),
        sum_of(sizes_in(sizes, Seq::empty())) == 0,
{
    let s = sizes_in(sizes, refs);
    assert(sizes_in(sizes, refs.push(r)) =~= s + seq![size_in(sizes, r)]);
    law_sum(s, seq![size_in(sizes, r)], size_in(sizes, r));
    assert(sizes_in(sizes, Seq::empty()) =~= Seq::<u64>::empty());
}

/// What counts as the size of each target.
pub proof fn law_target_sizes(out: Seq<char>, home: Seq<char>, key: Seq<char>)
    ensures
        probe_of("apt"@, home) == ProbeView::Usage("/var/cache/apt/archives"@),
        probe_of("crash"@, home) == ProbeView::Usage("/var/crash"@),
        probe_of("thumbnails"@, home) == ProbeView::Usage(home + "/.cache/thumbnails"@),
        probe_of("trash"@, home) == ProbeView::Usage(home + "/.local/share/Trash"@),
        probe_of("autoremove"@, home) == ProbeView::Autoremove,
        probe_of("journal"@, home) == ProbeView::Journal,
        size_of("apt"@, Some(out)) == usage_of(out),
        size_of("crash"@, Some(out)) == usage_of(out),
        size_of("thumbnails"@, Some(out)) == usage_of(out),
        size_of("trash"@, Some(out)) == usage_of(out),
        size_of("autoremove"@, Some(out)) == autoremove_of(out),
        size_of("journal"@, Some(out)) == journal_of(out),
        size_of(key, None) == 0,
        key != "apt"@ && key != "crash"@ && key != "thumbnails"@ && key != "trash"@ && key
            != "autoremove"@ && key != "journal"@ ==> probe_of(key, home) == ProbeView::Nothing
            && size_of(key, Some(out)) == 0,
{
    lemma_keys_differ();
}

proof fn lemma_keys_differ()
    ensures
        "apt"@.len() == 3,
        "crash"@.len() == 5,
        "thumbnails"@.len() == 10,
        "trash"@.len() == 5,
        "autoremove"@.len() == 10,
        "journal"@.len() == 7,
        "snap"@.len() == 4,
        "flatpak"@.len() == 7,
        "crash"@ != "trash"@,
        "thumbnails"@ != "autoremove"@,
        "journal"@ != "flatpak"@,
{
    reveal_strlit("apt");
    reveal_strlit("crash");
    reveal_strlit("thumbnails");
    reveal_strlit("trash");
    reveal_strlit("autoremove");
    reveal_strlit("journal");
    reveal_strlit("snap");
    reveal_strlit("flatpak");
    assert("crash"@[0] == 'c' && "trash"@[0] == 't');
    assert("thumbnails"@[0] == 't' && "autoremove"@[0] == 'a');
    assert("journal"@[0] == 'j' && "flatpak"@[0] == 'f');
}

/// Each standard target is sized from the reply to its own probe.
pub proof fn law_standard_targets(replies: Seq<Option<Seq<char>>>)
    requires
        replies.len() == 6,
    ensures
        standard_keys() == seq![
            "apt"@,
            "autoremove"@,
            "journal"@,
            "crash"@,
            "thumbnails"@,
            "trash"@,
        ],
        standard_targets(replies).len() == 6,
        forall|i: int|
            0 <= i < 6 ==> (#[trigger] standard_targets(replies)[i]).key == standard_keys()[i]
                && standard_targets(replies)[i].items == 0 && standard_targets(replies)[i].size
                == size_of(standard_keys()[i], replies[i]),
        standard_targets(replies)[0].label == "Apt package cache"@,
        standard_targets(replies)[1].label == "Unused packages"@,
        standard_targets(replies)[2].label == "System logs"@,
        standard_targets(replies)[3].label == "Crash reports"@,
        standard_targets(replies)[4].label == "Thumbnail cache"@,
        standard_targets(replies)[5].label == "Trash"@,
{
    let t = standard_targets(replies);
    let k = standard_keys();
    assert forall|i: int| 0 <= i < 6 implies (#[trigger] t[i]).key == k[i] && t[i].items == 0
        && t[i].size == size_of(k[i], replies[i]) by {
        if i == 0 {
        } else if i == 1 {
        } else if i == 2 {
        } else if i == 3 {
        } else if i == 4 {
        } else {
        }
    }
}

/// The command for each key, and which run as the administrator; no other key
/// has one.
pub proof fn law_commands(key: Seq<char>, home: Seq<char>, revs: Seq<RevisionView>)
    ensures
        command_of("apt"@, home, revs) == Some(("apt-get clean"@, true)),
        command_of("autoremove"@, home, revs) == Some(("apt-get -y autoremove --purge"@, true)),
        command_of("journal"@, home, revs) == Some(
            ("journalctl --rotate ; journalctl --vacuum-time=3d"@, true),
        ),
        command_of("crash"@, home, revs) == Some(("rm -rf /var/crash/*"@, true)),
        command_of("thumbnails"@, home, revs) == Some(
            ("rm -rf '"@ + home + "/.cache/thumbnails'"@, false),
        ),
        command_of("trash"@, home, revs) == Some(
            (
                "rm -rf '"@ + home + "/.local/share/Trash/files' '"@ + home
                    + "/.local/share/Trash/info'"@,
                false,
            ),
        ),
        command_of("flatpak"@, home, revs) == Some(
            ("flatpak uninstall --unused -y --noninteractive"@, false),
        ),
        revs.len() == 0 ==> command_of("snap"@, home, revs) is None,
        revs.len() == 1 ==> command_of("snap"@, home, revs) == Some(
            ("snap remove "@ + revs[0].0 + " --revision="@ + revs[0].1, true),
        ),
        key != "apt"@ && key != "autoremove"@ && key != "journal"@ && key != "crash"@ && key
            != "thumbnails"@ && key != "trash"@ && key != "flatpak"@ && key != "snap"@
            ==> command_of(key, home, revs) is None,
{
    lemma_keys_differ();
    if revs.len() == 1 {
        let c = revs.map_values(|r: RevisionView| snap_removal(r));
        assert(c =~= seq![snap_removal(revs[0])]);
        law_joined(c, snap_removal(revs[0]), " ; "@);
    }
}

/// Snap revisions are removed one after the other, each by name and revision.
pub proof fn law_snap_command(home: Seq<char>, revs: Seq<RevisionView>, r: RevisionView)
    requires
        revs.len() > 0,
    ensures
        ({
            let before = command_of("snap"@, home, revs);
            let after = command_of("snap"@, home, revs.push(r));
            before matches Some((b, _)) && after == Some(
                (b + " ; "@ + ("snap remove "@ + r.0 + " --revision="@ + r.1), true),
            )
        }),
{
    lemma_keys_differ();
    let f = |r: RevisionView| snap_removal(r);
    assert(revs.push(r).map_values(f) =~= revs.map_values(f).push(snap_removal(r)));
    law_joined(revs.map_values(f), snap_removal(r), " ; "@);
}

/// The ticked keys are taken in order, each by whoever may run its command;
/// one script runs them all, and there is none where there is nothing to run.
pub proof fn law_scripts(
    keys: Seq<Seq<char>>,
    key: Seq<char>,
    home: Seq<char>,
    revs: Seq<RevisionView>,
    root: bool,
)
    ensures
        ({
            let before = commands_for(keys, home, revs, root);
            let after = commands_for(keys.push(key), home, revs, root);
            match command_of(key, home, revs) {
                Some((c, r)) => after == (if r == root {
                    before.push(c)
                } else {
                    before
                }),
                None => after == before,
            }
        }),
        commands_for(Seq::empty(), home, revs, root).len() == 0,
        script_of(Seq::empty()) is None,
        keys.len() > 0 ==> script_of(keys) == Some(joined(keys, " ; "@) + " 2>&1"@),
{
    let f = |key: Seq<char>|
        match command_of(key, home, revs) {
            Some((cmd, r)) => if r == root {
                Some(cmd)
            } else {
                None
            },
            None => None,
        };
    assert(keys.push(key) =~= keys + seq![key]);
    law_kept_in_order(keys, seq![key], key, f);
    let before = commands_for(keys, home, revs, root);
    assert(before == kept(keys, f));
    assert(before + Seq::<Seq<char>>::empty() =~= before);
    if let Some((c, r)) = command_of(key, home, revs) {
        assert(before + seq![c] =~= before.push(c));
    }
}

/// A target can be ticked where it takes space or counts something; the ticked
/// ones add up to what is freed.
pub proof fn law_selected(targets: Seq<TargetView>, t: TargetView, keys: Set<Seq<char>>)
    ensures
        selectable(t) <==> t.size > 0 || t.items > 0,
        selectable(t) ==> selectable_keys(targets.push(t)) == selectable_keys(targets).push(t.key),
        !selectable(t) ==> selectable_keys(targets.push(t)) == selectable_keys(targets),
        sum_of(selected_sizes(targets.push(t), keys)) == sum_of(selected_sizes(targets, keys)) + (
        if keys.contains(t.key) {
            t.size as nat
        } else {
            0
        }),
        sum_of(target_sizes(targets.push(t))) == sum_of(target_sizes(targets)) + t.size,
        selectable_keys(Seq::empty()).len() == 0,
        sum_of(selected_sizes(Seq::empty(), keys)) == 0,
        sum_of(target_sizes(Seq::empty())) == 0,
{
    let f = |t: TargetView|
        if selectable(t) {
            Some(t.key)
        } else {
            None
        };
    let g = |t: TargetView|
        if keys.contains(t.key) {
            Some(t.size)
        } else {
            None
        };
    assert(targets.push(t) =~= targets + seq![t]);
    law_kept_in_order(targets, seq![t], t, f);
    law_kept_in_order(targets, seq![t], t, g);
    let k = selectable_keys(targets);
    assert(k == kept(targets, f));
    assert(k + Seq::<Seq<char>>::empty() =~= k);
    assert(k + seq![t.key] =~= k.push(t.key));
    let z = selected_sizes(targets, keys);
    assert(z == kept(targets, g));
    assert(z + Seq::<u64>::empty() =~= z);
    law_sum(z, seq![t.size], t.size);
    let all = target_sizes(targets);
    assert(target_sizes(targets.push(t)) =~= all + seq![t.size]);
    law_sum(all, seq![t.size], t.size);
    assert(target_sizes(Seq::empty()) =~= Seq::<u64>::empty());
}

/// The file of a revision stands under its name and its revision, and what is
/// selected is said with its count and its size.
pub proof fn law_shown(name: Seq<char>, rev: Seq<char>, n: nat, size: u64)
    ensures
        seed_path((name, rev)) == "/var/lib/snapd/snaps/"@ + name + "_"@ + rev + ".snap"@,
        selected_text(n, size) == decimal(n) + " selected  ·  frees ~"@ + bytes_text(size as nat),
{
}

/// What is said of old revisions and unused runtimes, where there are any and
/// where there are none.
pub proof fn law_counted_targets(n: nat, size: u64)
    ensures
        snap_target(n, size).key == "snap"@,
        snap_target(n, size).label == "Old Snap revisions"@,
        snap_target(n, size).size == size,
        snap_target(n, size).items == n,
        n == 0 ==> snap_target(n, size).detail == "No disabled revisions — snapd is tidy"@,
        n > 0 ==> snap_target(n, size).detail == decimal(n)
            + " old disabled revision(s) kept by snapd"@,
        flatpak_target(n, size).key == "flatpak"@,
        flatpak_target(n, size).label == "Flatpak unused runtimes"@,
        flatpak_target(n, size).size == size,
        flatpak_target(n, size).items == n,
        n == 0 ==> flatpak_target(n, size).detail == "Every installed runtime is still needed"@,
        n > 0 ==> flatpak_target(n, size).detail == decimal(n)
            + " runtime(s) no installed app needs"@,
{
}

/// What is said of a target and the tab is said of the fields.
pub proof fn law_fields(target: CleanTarget, state: CleanupState, tab: Cleanup, probe: Probe)
    ensures
        target@.key == target.key@,
        target@.label == target.label@,
        target@.detail == target.detail@,
        target@.size == target.size,
        target@.items == target.items as nat,
        state@.scanning == state.scanning,
        state@.scanned == state.scanned,
        state@.targets == views(state.targets@),
        state@.error == opt(state.error),
        state@.busy == state.busy,
        state@.log == views(state.log@),
        state@.done == state.done,
        state@.ok == state.ok,
        tab@ == tab.state@,
        probe matches Probe::Usage(p) ==> probe@ == ProbeView::Usage(p@),
        probe is Autoremove ==> probe@ is Autoremove,
        probe is Journal ==> probe@ is Journal,
        probe is Nothing ==> probe@ is Nothing,
{
}

/// The listings of runtimes are read line by line, that of snaps below its
/// heading.
pub proof fn law_listing_lines(heading: Seq<char>, line: Seq<char>, rest: Seq<char>)
    requires
        !heading.contains('\n') && !seq!['\r'].is_suffix_of(heading),
        !line.contains('\n') && !seq!['\r'].is_suffix_of(line),
    ensures
        ({
            let out = line + seq!['\n'] + rest;
            &&& unused_row(line) matches Some(row) ==> unused_of(out) == seq![row] + unused_of(rest)
            &&& unused_row(line) is None ==> unused_of(out) == unused_of(rest)
            &&& sized_row(line) matches Some(row) ==> sized_of(out) == seq![row] + sized_of(rest)
            &&& sized_row(line) is None ==> sized_of(out) == sized_of(rest)
            &&& disabled_row(line) matches Some(row) ==> disabled_of(heading + seq!['\n'] + out)
                == seq![row] + disabled_of(heading + seq!['\n'] + rest)
            &&& disabled_row(line) is None ==> disabled_of(heading + seq!['\n'] + out)
                == disabled_of(heading + seq!['\n'] + rest)
        }),
        unused_of(Seq::empty()).len() == 0,
        sized_of(Seq::empty()).len() == 0,
        disabled_of(heading + seq!['\n']).len() == 0,
        disabled_of(Seq::empty()).len() == 0,
{
    let none = Seq::<char>::empty();
    let out = line + seq!['\n'] + rest;
    law_rows::<UnusedLine>(line, rest);
    law_rows::<SizedLine>(line, rest);
    law_rows::<DisabledLine>(line, rest);
    law_rows::<DisabledLine>(heading, out);
    law_rows::<DisabledLine>(heading, rest);
    law_rows::<DisabledLine>(heading, none);
    assert(heading + seq!['\n'] + none =~= heading + seq!['\n']);
}

/// A command and its replies stand for their texts.
pub proof fn law_texts(c: Option<(String, bool)>, replies: Seq<Option<String>>, i: int)
    ensures
        c is None ==> command_view(c) is None,
        c matches Some((cmd, root)) ==> command_view(c) == Some((cmd@, root)),
        replies_view(replies).len() == replies.len(),
        0 <= i < replies.len() ==> replies_view(replies)[i] == opt(replies[i]),
{
}

/// At first nothing is measured, running or said.
pub proof fn law_at_first()
    ensures
        ({
            let s = CleanupView::initial();
            &&& !s.scanning && !s.scanned && !s.busy && !s.done && !s.ok
            &&& s.targets.len() == 0 && s.log.len() == 0 && s.error is None
        }),
{
}

/// What each target is, in a line.
pub proof fn law_target_details(replies: Seq<Option<Seq<char>>>)
    requires
        replies.len() == 6,
    ensures
        standard_targets(replies)[0].detail == "Downloaded .deb files in /var/cache/apt"@,
        standard_targets(replies)[1].detail == "Auto-removable dependencies & old kernels"@,
        standard_targets(replies)[2].detail == "Old journald logs (keeps the last 3 days)"@,
        standard_targets(replies)[3].detail == "Saved crash dumps in /var/crash"@,
        standard_targets(replies)[4].detail == "~/.cache/thumbnails (regenerated on demand)"@,
        standard_targets(replies)[5].detail == "~/.local/share/Trash"@,
{
}

} // verus!
