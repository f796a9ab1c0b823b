//! Programs that start at login, and system services.

use vstd::prelude::*;
use vstd::string::*;

use crate::log::{failure, failure_of};
use crate::order::{
    in_order, law_ranked_sort, law_sort_same_items, law_text_order, order_of, sorted_by,
    stable_sort, string_less, text_lt, Ranked,
};
use crate::text::{
    begins_with_any, contains, ends_with, field, field_of, is_plain, is_space, is_text, join,
    join_slices, joined, kept, law_affixes, law_plain, law_rows, law_split_once, lemma_find_char,
    lemma_joined_front, lemma_kept_ends, lemma_kept_step, lemma_lines_first, lemma_lines_whole,
    lemma_prefix_chars, lemma_run_before, lemma_run_before_absent, lemma_run_before_append,
    lemma_views_push, lines, lines_of, listed, lowercase, occurs, opt, plain, prefix_listed, rows,
    rows_of, run_before, same_text, split_once, split_once_at, starts_with, to_chars, to_text, trim,
    trimmed, trimmed_end, trimmed_start, views, without_cr, words, words_of, LineReader,
};

use crate::number::{decimal, show};
use crate::view::{indices, matches_lower, places, text_matches};

verus! {

// --- desktop files ----------------------------------------------------------

/// The key and the value of a line `key=value`.
pub open spec fn pair_of(line: Seq<char>) -> Option<(Seq<char>, Seq<char>)> {
    match split_once_at(line, "="@) {
        Some((k, v)) => Some((trimmed(k), trimmed(v))),
        None => None,
    }
}

/// The value of the first line with this key.
pub open spec fn first_value(ls: Seq<Seq<char>>, key: Seq<char>) -> Option<Seq<char>>
    decreases ls.len(),
{
    if ls.len() == 0 {
        None
    } else {
        match pair_of(ls[0]) {
            Some((k, v)) => if k == key {
                Some(v)
            } else {
                first_value(ls.skip(1), key)
            },
            None => first_value(ls.skip(1), key),
        }
    }
}

fn find_value<'a>(ls: &Vec<&'a [char]>, key: &str) -> (r: Option<&'a [char]>)
    ensures
        opt(r) == first_value(views(ls@), key@),
{
    let ghost vs = views(ls@);
    let mut i: usize = 0;
    assert(vs.skip(0) =~= vs);
    while i < ls.len()
        invariant
            i <= ls@.len(),
            vs == views(ls@),
            first_value(vs, key@) == first_value(vs.skip(i as int), key@),
        decreases ls@.len() - i,
    {
        assert(vs.skip(i as int)[0] == ls@[i as int]@);
        if let Some((k, v)) = split_once(ls[i], "=") {
            if is_text(trim(k), key) {
                return Some(trim(v));
            }
        }
        assert(vs.skip(i as int).skip(1) =~= vs.skip(i as int + 1));
        i += 1;
    }
    None
}

/// A program that starts at login.
#[derive(Clone)]
pub struct StartupApp {
    pub name: String,
    /// The name of its file.
    pub file: String,
    pub comment: String,
    pub enabled: bool,
}

#[verifier::ext_equal]
pub struct StartupAppView {
    pub name: Seq<char>,
    pub file: Seq<char>,
    pub comment: Seq<char>,
    pub enabled: bool,
}

impl View for StartupApp {
    type V = StartupAppView;

    open spec fn view(&self) -> StartupAppView {
        StartupAppView {
            name: self.name@,
            file: self.file@,
            comment: self.comment@,
            enabled: self.enabled,
        }
    }
}

/// Whether the entry of some lines starts at login.
pub open spec fn enabled_in(ls: Seq<Seq<char>>) -> bool {
    first_value(ls, "Hidden"@) != Some("true"@) && first_value(ls, "X-GNOME-Autostart-enabled"@)
        != Some("false"@)
}

/// The program that a file stands for; one that could not be read counts as
/// empty.
pub open spec fn app_of(file: Seq<char>, text: Seq<char>) -> StartupAppView {
    let ls = lines_of(text);
    StartupAppView {
        name: match first_value(ls, "Name"@) {
            Some(n) => n,
            None => file,
        },
        file,
        comment: match first_value(ls, "Comment"@) {
            Some(c) => c,
            None => Seq::empty(),
        },
        enabled: enabled_in(ls),
    }
}

/// Reads the file of a program that starts at login.
pub fn parse_desktop(file: &str, text: &str) -> (r: StartupApp)
    ensures
        r@ == app_of(file@, text@),
{
    let c = to_chars(text);
    let ls = lines(&c);
    let name = match find_value(&ls, "Name") {
        Some(n) => to_text(n),
        None => file.to_owned(),
    };
    let comment = match find_value(&ls, "Comment") {
        Some(c) => to_text(c),
        None => String::new(),
    };
    let hidden = match find_value(&ls, "Hidden") {
        Some(v) => is_text(v, "true"),
        None => false,
    };
    let automatic = match find_value(&ls, "X-GNOME-Autostart-enabled") {
        Some(v) => !is_text(v, "false"),
        None => true,
    };
    StartupApp { name, file: file.to_owned(), comment, enabled: !hidden && automatic }
}

/// A file name with the extension of a desktop file.
pub open spec fn is_desktop_name(file: Seq<char>) -> bool {
    ".desktop"@.is_suffix_of(file) && file.len() > ".desktop"@.len()
}

/// A file of a startup directory.
pub struct DesktopFile {
    pub file: String,
    /// Empty when it could not be read.
    pub text: String,
}

pub struct DesktopFileView {
    pub file: Seq<char>,
    pub text: Seq<char>,
}

impl View for DesktopFile {
    type V = DesktopFileView;

    open spec fn view(&self) -> DesktopFileView {
        DesktopFileView { file: self.file@, text: self.text@ }
    }
}

/// `t`, sorted by file name, with `e` in its place; one of the same file gives
/// way.
pub open spec fn filed(t: Seq<StartupAppView>, e: StartupAppView) -> Seq<StartupAppView>
    decreases t.len(),
{
    if t.len() == 0 {
        seq![e]
    } else if t[0].file == e.file {
        seq![e] + t.skip(1)
    } else if text_lt(e.file, t[0].file) {
        seq![e] + t
    } else {
        seq![t[0]] + filed(t.skip(1), e)
    }
}

/// The programs of some files by file name, a later file in place of an
/// earlier one of the same name.
pub open spec fn merged(files: Seq<DesktopFileView>) -> Seq<StartupAppView>
    decreases files.len(),
{
    if files.len() == 0 {
        Seq::empty()
    } else {
        let f = files.last();
        let rest = merged(files.drop_last());
        if is_desktop_name(f.file) {
            filed(rest, app_of(f.file, f.text))
        } else {
            rest
        }
    }
}

fn file_in(v: &mut Vec<StartupApp>, e: StartupApp)
    ensures
        views(final(v)@) == filed(views(old(v)@), e@),
{
    let ghost t = views(v@);
    let n = v.len();
    let mut i: usize = 0;
    assert(t.skip(0) =~= t);
    assert(t.take(0) + filed(t, e@) =~= filed(t, e@));
    while i < n && string_less(v[i].file.as_str(), e.file.as_str())
        invariant
            i <= n == v@.len(),
            t == views(v@),
            filed(t, e@) == t.take(i as int) + filed(t.skip(i as int), e@),
        decreases n - i,
    {
        let ghost rest = t.skip(i as int);
        assert(rest[0] == v@[i as int]@);
        proof {
            law_text_order(rest[0].file, e@.file, rest[0].file);
        }
        assert(rest.skip(1) =~= t.skip(i as int + 1));
        assert(t.take(i as int) + (seq![rest[0]] + filed(rest.skip(1), e@)) =~= t.take(
            i as int + 1,
        ) + filed(rest.skip(1), e@));
        i += 1;
    }
    let ghost rest = t.skip(i as int);
    if i < n {
        assert(rest[0] == v@[i as int]@);
        proof {
            law_text_order(e@.file, rest[0].file, e@.file);
        }
        if same_text(v[i].file.as_str(), e.file.as_str()) {
            v.remove(i);
            v.insert(i, e);
            assert(views(v@) =~= t.take(i as int) + (seq![e@] + rest.skip(1)));
        } else {
            v.insert(i, e);
            assert(views(v@) =~= t.take(i as int) + (seq![e@] + rest));
        }
    } else {
        v.insert(i, e);
        assert(views(v@) =~= t.take(i as int) + seq![e@]);
    }
}

fn merge(files: &[DesktopFile], more: &[DesktopFile]) -> (r: Vec<StartupApp>)
    ensures
        views(r@) == merged(views(files@) + views(more@)),
{
    let ghost all = views(files@) + views(more@);
    let mut r: Vec<StartupApp> = Vec::new();
    let n = files.len();
    let mut i: usize = 0;
    assert(views(r@) =~= merged(all.take(0)));
    while i < n
        invariant
            i <= n == files@.len(),
            all == views(files@) + views(more@),
            views(r@) == merged(all.take(i as int)),
        decreases n - i,
    {
        let f = &files[i];
        assert(all[i as int] == f@);
        assert(all.take(i as int + 1).drop_last() =~= all.take(i as int));
        if desktop_name(f.file.as_str()) {
            file_in(&mut r, parse_desktop(f.file.as_str(), f.text.as_str()));
        }
        i += 1;
    }
    let mut j: usize = 0;
    while j < more.len()
        invariant
            n == files@.len(),
            j <= more@.len(),
            all == views(files@) + views(more@),
            views(r@) == merged(all.take(n + j as int)),
        decreases more@.len() - j,
    {
        let f = &more[j];
        assert(all[n + j as int] == f@);
        assert(all.take(n + j as int + 1).drop_last() =~= all.take(n + j as int));
        if desktop_name(f.file.as_str()) {
            file_in(&mut r, parse_desktop(f.file.as_str(), f.text.as_str()));
        }
        j += 1;
    }
    assert(all.take(n + j as int) =~= all);
    r
}

fn desktop_name(file: &str) -> (r: bool)
    ensures
        r == is_desktop_name(file@),
{
    let c = to_chars(file);
    let ext = to_chars(".desktop");
    ends_with(&c, ".desktop") && c.len() > ext.len()
}

impl Ranked for StartupApp {
    open spec fn precedes(a: StartupAppView, b: StartupAppView) -> bool {
        text_lt(lowercase(a.name), lowercase(b.name))
    }

    fn before(&self, other: &Self) -> (r: bool) {
        let a = self.name.as_str().to_lowercase();
        let b = other.name.as_str().to_lowercase();
        string_less(a.as_str(), b.as_str())
    }

    proof fn law_precedes(a: StartupAppView, b: StartupAppView, c: StartupAppView) {
        law_text_order(lowercase(a.name), lowercase(b.name), lowercase(c.name));
        law_text_order(lowercase(b.name), lowercase(a.name), lowercase(c.name));
    }
}

/// The programs that start at login, by name: the system's files, overridden
/// by the user's.
pub open spec fn startup_of(
    system: Seq<DesktopFileView>,
    user: Seq<DesktopFileView>,
) -> Seq<StartupAppView> {
    sorted_by(merged(system + user), order_of::<StartupApp>())
}

pub fn list_startup(system: &[DesktopFile], user: &[DesktopFile]) -> (r: Vec<StartupApp>)
    ensures
        views(r@) == startup_of(views(system@), views(user@)),
{
    stable_sort(merge(system, user))
}

/// The program listed for a file.
pub open spec fn app_for(apps: Seq<StartupAppView>, file: Seq<char>) -> Option<StartupAppView>
    decreases apps.len(),
{
    if apps.len() == 0 {
        None
    } else if apps[0].file == file {
        Some(apps[0])
    } else {
        app_for(apps.skip(1), file)
    }
}

/// Whether programs stand in the strict order of their file names.
pub open spec fn by_file(apps: Seq<StartupAppView>) -> bool {
    forall|i: int, j: int|
        0 <= i < j < apps.len() ==> text_lt((#[trigger] apps[i]).file, (#[trigger] apps[j]).file)
}

proof fn lemma_filed(t: Seq<StartupAppView>, e: StartupAppView, file: Seq<char>)
    requires
        by_file(t),
    ensures
        by_file(filed(t, e)),
        app_for(filed(t, e), file) == (if file == e.file {
            Some(e)
        } else {
            app_for(t, file)
        }),
        forall|i: int|
            0 <= i < filed(t, e).len() ==> #[trigger] filed(t, e)[i] == e || t.contains(
                filed(t, e)[i],
            ),
    decreases t.len(),
{
    let r = filed(t, e);
    if t.len() == 0 {
        assert(r.skip(1) =~= t);
    } else if t[0].file == e.file {
        assert(r.skip(1) =~= t.skip(1));
        assert forall|i: int| 0 <= i < r.len() implies #[trigger] r[i] == e || t.contains(r[i]) by {
            if i > 0 {
                assert(r[i] == t[i]);
            }
        }
        assert forall|i: int, j: int| 0 <= i < j < r.len() implies text_lt(
            (#[trigger] r[i]).file,
            (#[trigger] r[j]).file,
        ) by {
            assert(r[i].file == t[i].file);
            assert(r[j].file == t[j].file);
        }
    } else if text_lt(e.file, t[0].file) {
        assert(r.skip(1) =~= t);
        assert forall|i: int| 0 <= i < r.len() implies #[trigger] r[i] == e || t.contains(r[i]) by {
            if i > 0 {
                assert(r[i] == t[i - 1]);
            }
        }
        assert forall|i: int, j: int| 0 <= i < j < r.len() implies text_lt(
            (#[trigger] r[i]).file,
            (#[trigger] r[j]).file,
        ) by {
            assert(r[j] == t[j - 1]);
            if i > 0 {
                assert(r[i] == t[i - 1]);
            } else if j > 1 {
                law_text_order(e.file, t[0].file, t[j - 1].file);
            }
        }
    } else {
        let u = t.skip(1);
        assert(by_file(u)) by {
            assert forall|i: int, j: int| 0 <= i < j < u.len() implies text_lt(
                (#[trigger] u[i]).file,
                (#[trigger] u[j]).file,
            ) by {
                assert(u[i] == t[i + 1] && u[j] == t[j + 1]);
            }
        }
        lemma_filed(u, e, file);
        let s = filed(u, e);
        assert(r.skip(1) =~= s);
        law_text_order(e.file, t[0].file, e.file);
        assert forall|i: int| 0 <= i < r.len() implies #[trigger] r[i] == e || t.contains(r[i]) by {
            if i > 0 {
                assert(r[i] == s[i - 1]);
                if r[i] != e {
                    let k = choose|k: int| 0 <= k < u.len() && u[k] == s[i - 1];
                    assert(t[k + 1] == r[i]);
                }
            } else {
                assert(t[0] == r[0]);
            }
        }
        assert forall|i: int, j: int| 0 <= i < j < r.len() implies text_lt(
            (#[trigger] r[i]).file,
            (#[trigger] r[j]).file,
        ) by {
            assert(r[j] == s[j - 1]);
            if i > 0 {
                assert(r[i] == s[i - 1]);
            } else {
                if s[j - 1] != e {
                    let k = choose|k: int| 0 <= k < u.len() && u[k] == s[j - 1];
                    assert(t[k + 1] == s[j - 1]);
                }
            }
        }
    }
}

/// The last file of a name among some files.
pub open spec fn last_file(files: Seq<DesktopFileView>, file: Seq<char>) -> Option<DesktopFileView>
    decreases files.len(),
{
    if files.len() == 0 {
        None
    } else if files.last().file == file && is_desktop_name(file) {
        Some(files.last())
    } else {
        last_file(files.drop_last(), file)
    }
}

/// Each file name is listed once, with what its last file says: the user's
/// where the user has one.
pub proof fn law_later_file_wins(files: Seq<DesktopFileView>, file: Seq<char>)
    ensures
        by_file(merged(files)),
        app_for(merged(files), file) == (match last_file(files, file) {
            Some(f) => Some(app_of(file, f.text)),
            None => None,
        }),
    decreases files.len(),
{
    if files.len() > 0 {
        law_later_file_wins(files.drop_last(), file);
        let f = files.last();
        if is_desktop_name(f.file) {
            lemma_filed(merged(files.drop_last()), app_of(f.file, f.text), file);
        }
    }
}

// --- switching a program on or off ------------------------------------------

/// How many lines precede the first that has the property.
pub open spec fn lines_before(ls: Seq<Seq<char>>, p: spec_fn(Seq<char>) -> bool) -> nat
    decreases ls.len(),
{
    if ls.len() == 0 || p(ls[0]) {
        0
    } else {
        1 + lines_before(ls.skip(1), p)
    }
}

proof fn lemma_lines_before(ls: Seq<Seq<char>>, p: spec_fn(Seq<char>) -> bool)
    ensures
        lines_before(ls, p) <= ls.len(),
        lines_before(ls, p) < ls.len() ==> p(ls[lines_before(ls, p) as int]),
        forall|i: int| 0 <= i < lines_before(ls, p) ==> !p(#[trigger] ls[i]),
    decreases ls.len(),
{
    if ls.len() > 0 && !p(ls[0]) {
        lemma_lines_before(ls.skip(1), p);
        assert forall|i: int| 0 <= i < lines_before(ls, p) implies !p(#[trigger] ls[i]) by {
            if i > 0 {
                assert(ls[i] == ls.skip(1)[i - 1]);
            }
        }
    }
}

/// The heading of the main group.
pub open spec fn is_main() -> spec_fn(Seq<char>) -> bool {
    |l: Seq<char>| trimmed(l) == "[Desktop Entry]"@
}

/// The heading of any group.
pub open spec fn is_heading() -> spec_fn(Seq<char>) -> bool {
    |l: Seq<char>| "["@.is_prefix_of(trimmed(l)) && "]"@.is_suffix_of(trimmed(l))
}

/// A line that begins like this.
pub open spec fn begins(prefix: Seq<char>) -> spec_fn(Seq<char>) -> bool {
    |l: Seq<char>| prefix.is_prefix_of(l)
}

/// The lines that do not begin like this.
pub open spec fn without(ls: Seq<Seq<char>>, prefix: Seq<char>) -> Seq<Seq<char>> {
    kept(
        ls,
        |l: Seq<char>|
            if prefix.is_prefix_of(l) {
                None
            } else {
                Some(l)
            },
    )
}

/// A group's lines with one line for the key: in place of the first that it
/// has, the others gone, or else ahead of all.
pub open spec fn rewritten(body: Seq<Seq<char>>, prefix: Seq<char>, line: Seq<char>) -> Seq<
    Seq<char>,
> {
    let p = lines_before(body, begins(prefix)) as int;
    if p < body.len() {
        body.take(p) + seq![line] + without(body.skip(p + 1), prefix)
    } else {
        seq![line] + body
    }
}

/// The lines of a file with `key=value` in the main group, whose heading is
/// the line `start`.
pub open spec fn with_key(
    ls: Seq<Seq<char>>,
    start: int,
    key: Seq<char>,
    value: Seq<char>,
) -> Seq<Seq<char>> {
    let rest = ls.skip(start + 1);
    let n = lines_before(rest, is_heading()) as int;
    ls.take(start + 1) + rewritten(rest.take(n), key + "="@, key + "="@ + value) + rest.skip(n)
}

/// The text of a file with `key=value` in its main group, which is made where
/// there is none.
pub open spec fn key_set(content: Seq<char>, key: Seq<char>, value: Seq<char>) -> Seq<char> {
    let ls = lines_of(content);
    let start = lines_before(ls, is_main()) as int;
    if start < ls.len() {
        joined(with_key(ls, start, key, value), "\n"@)
    } else {
        "[Desktop Entry]\n"@ + (key + "="@ + value) + "\n"@ + content
    }
}

fn find_main(ls: &Vec<&[char]>) -> (r: usize)
    ensures
        r == lines_before(views(ls@), is_main()),
{
    let ghost vs = views(ls@);
    let mut i: usize = 0;
    assert(vs.skip(0) =~= vs);
    while i < ls.len()
        invariant
            i <= ls@.len(),
            vs == views(ls@),
            lines_before(vs, is_main()) == i + lines_before(vs.skip(i as int), is_main()),
        decreases ls@.len() - i,
    {
        assert(vs.skip(i as int)[0] == ls@[i as int]@);
        if is_text(trim(ls[i]), "[Desktop Entry]") {
            return i;
        }
        assert(vs.skip(i as int).skip(1) =~= vs.skip(i as int + 1));
        i += 1;
    }
    i
}

fn find_heading(ls: &Vec<&[char]>, from: usize) -> (r: usize)
    requires
        from <= ls@.len(),
    ensures
        from <= r <= ls@.len(),
        r - from == lines_before(views(ls@).skip(from as int), is_heading()),
{
    let ghost vs = views(ls@);
    let mut i: usize = from;
    while i < ls.len()
        invariant
            from <= i <= ls@.len(),
            vs == views(ls@),
            lines_before(vs.skip(from as int), is_heading()) == (i - from) + lines_before(
                vs.skip(i as int),
                is_heading(),
            ),
        decreases ls@.len() - i,
    {
        assert(vs.skip(i as int)[0] == ls@[i as int]@);
        let t = trim(ls[i]);
        if starts_with(t, "[") && ends_with(t, "]") {
            return i;
        }
        assert(vs.skip(i as int).skip(1) =~= vs.skip(i as int + 1));
        i += 1;
    }
    i
}

fn find_prefix(ls: &[&[char]], prefix: &str) -> (r: usize)
    ensures
        r <= ls@.len(),
        r == lines_before(views(ls@), begins(prefix@)),
{
    let ghost vs = views(ls@);
    let mut i: usize = 0;
    assert(vs.skip(0) =~= vs);
    while i < ls.len()
        invariant
            i <= ls@.len(),
            vs == views(ls@),
            lines_before(vs, begins(prefix@)) == i + lines_before(
                vs.skip(i as int),
                begins(prefix@),
            ),
        decreases ls@.len() - i,
    {
        assert(vs.skip(i as int)[0] == ls@[i as int]@);
        if starts_with(ls[i], prefix) {
            return i;
        }
        assert(vs.skip(i as int).skip(1) =~= vs.skip(i as int + 1));
        i += 1;
    }
    i
}

fn copy_lines(out: &mut Vec<String>, ls: &[&[char]])
    ensures
        views(final(out)@) == views(old(out)@) + views(ls@),
{
    let ghost start = views(out@);
    let ghost all = views(ls@);
    let mut i: usize = 0;
    assert(start + all.take(0) =~= start);
    while i < ls.len()
        invariant
            i <= ls@.len(),
            all == views(ls@),
            views(out@) == start + all.take(i as int),
        decreases ls@.len() - i,
    {
        let ghost before = out@;
        let l = to_text(ls[i]);
        assert(all[i as int] == l@);
        out.push(l);
        assert(views(out@) =~= views(before).push(l@));
        i += 1;
        assert(start + all.take(i as int) =~= (start + all.take(i as int - 1)).push(
            all[i as int - 1],
        ));
    }
    assert(all.take(i as int) =~= all);
}

fn copy_others(out: &mut Vec<String>, ls: &[&[char]], prefix: &str)
    ensures
        views(final(out)@) == views(old(out)@) + without(views(ls@), prefix@),
{
    let ghost start = views(out@);
    let ghost vs = views(ls@);
    let ghost f = |l: Seq<char>|
        if prefix@.is_prefix_of(l) {
            None
        } else {
            Some(l)
        };
    let mut i: usize = 0;
    proof {
        assert(vs.skip(0) =~= vs);
        lemma_kept_ends(views(out@), vs, f);
    }
    while i < ls.len()
        invariant
            i <= ls@.len(),
            vs == views(ls@),
            f == (|l: Seq<char>|
                if prefix@.is_prefix_of(l) {
                    None
                } else {
                    Some(l)
                }),
            views(out@) + kept(vs.skip(i as int), f) == start + kept(vs, f),
        decreases ls@.len() - i,
    {
        proof {
            lemma_kept_step(views(out@), vs, i as int, f);
        }
        assert(vs[i as int] == ls@[i as int]@);
        if !starts_with(ls[i], prefix) {
            let ghost before = out@;
            let l = to_text(ls[i]);
            out.push(l);
            assert(views(out@) =~= views(before).push(l@));
        }
        i += 1;
    }
    proof {
        lemma_kept_ends(views(out@), vs, f);
    }
}

/// Puts `key=value` into the main group of a desktop file, and nowhere else.
pub fn set_desktop_key(content: &str, key: &str, value: &str) -> (r: String)
    ensures
        r@ == key_set(content@, key@, value@),
{
    let mut prefix = key.to_owned();
    prefix.append("=");
    let mut line = key.to_owned();
    line.append("=");
    line.append(value);
    let c = to_chars(content);
    let ls = lines(&c);
    let n = ls.len();
    let ghost vs = views(ls@);
    let start = find_main(&ls);
    proof {
        lemma_lines_before(vs, is_main());
    }
    if start >= n {
        let mut r = "[Desktop Entry]\n".to_owned();
        r.append(line.as_str());
        r.append("\n");
        r.append(content);
        return r;
    }
    let end = find_heading(&ls, start + 1);
    let ghost rest = vs.skip(start + 1);
    let ghost m = lines_before(rest, is_heading()) as int;
    let head = vstd::slice::slice_subrange(&ls, 0, start + 1);
    let body = vstd::slice::slice_subrange(&ls, start + 1, end);
    let tail = vstd::slice::slice_subrange(&ls, end, n);
    assert(views(head@) =~= vs.take(start + 1));
    assert(views(body@) =~= rest.take(m));
    assert(views(tail@) =~= rest.skip(m));
    let mut out: Vec<String> = Vec::new();
    assert(views(out@) =~= Seq::<Seq<char>>::empty());
    copy_lines(&mut out, head);
    assert(views(out@) =~= views(head@));
    let p = find_prefix(body, prefix.as_str());
    let k = body.len();
    if p < k {
        let early = vstd::slice::slice_subrange(body, 0, p);
        let late = vstd::slice::slice_subrange(body, p + 1, k);
        assert(views(early@) =~= views(body@).take(p as int));
        assert(views(late@) =~= views(body@).skip(p as int + 1));
        copy_lines(&mut out, early);
        let ghost before = out@;
        out.push(line);
        assert(views(out@) =~= views(before) + seq![line@]);
        copy_others(&mut out, late, prefix.as_str());
    } else {
        let ghost before = out@;
        out.push(line);
        assert(views(out@) =~= views(before) + seq![line@]);
        copy_lines(&mut out, body);
    }
    let ghost mid = rewritten(views(body@), prefix@, line@);
    assert(views(out@) =~= views(head@) + mid);
    copy_lines(&mut out, tail);
    assert(views(out@) =~= with_key(vs, start as int, key@, value@));
    join(&out, "\n")
}

/// The text of a program's file once it is switched on or off.
pub open spec fn switched(content: Seq<char>, hidden: bool) -> Seq<char> {
    key_set(
        key_set(
            content,
            "Hidden"@,
            if hidden {
                "true"@
            } else {
                "false"@
            },
        ),
        "X-GNOME-Autostart-enabled"@,
        if hidden {
            "false"@
        } else {
            "true"@
        },
    )
}

/// The text that a switch starts from: the user's copy of a file, else the
/// system's, else an empty entry.
pub open spec fn base_content(user: Option<Seq<char>>, system: Option<Seq<char>>) -> Seq<char> {
    match user {
        Some(text) => text,
        None => match system {
            Some(text) => text,
            None => "[Desktop Entry]\nType=Application\n"@,
        },
    }
}

pub fn base_text(user: Option<String>, system: Option<String>) -> (r: String)
    ensures
        r@ == base_content(opt(user), opt(system)),
{
    match user {
        Some(text) => text,
        None => match system {
            Some(text) => text,
            None => "[Desktop Entry]\nType=Application\n".to_owned(),
        },
    }
}

/// Switches the program of a file on or off.
pub fn set_hidden(content: &str, hidden: bool) -> (r: String)
    ensures
        r@ == switched(content@, hidden),
{
    let first = set_desktop_key(
        content,
        "Hidden",
        if hidden {
            "true"
        } else {
            "false"
        },
    );
    set_desktop_key(
        first.as_str(),
        "X-GNOME-Autostart-enabled",
        if hidden {
            "false"
        } else {
            "true"
        },
    )
}

// --- reading back what was written ------------------------------------------

proof fn lemma_trimmed_cr(v: Seq<char>)
    ensures
        trimmed(v.push('\r')) == trimmed(v),
    decreases v.len(),
{
    let w = v.push('\r');
    if v.len() == 0 {
        assert(w.skip(1) =~= v);
        assert(trimmed_start(w.skip(1)) == v);
        assert(trimmed_start(w) == trimmed_start(w.skip(1)));
    } else if is_space(v[0]) {
        assert(w.skip(1) =~= v.skip(1).push('\r'));
        lemma_trimmed_cr(v.skip(1));
        assert(trimmed_start(w) == trimmed_start(w.skip(1)));
    } else {
        assert(trimmed_start(w) == w);
        assert(w.drop_last() =~= v);
        assert(trimmed_end(w) == trimmed_end(w.drop_last()));
    }
}

/// A carriage return at the end of a line changes nothing in what it says.
proof fn lemma_pair_cr(l: Seq<char>)
    ensures
        pair_of(without_cr(l)) == pair_of(l),
{
    if l.len() > 0 && l.last() == '\r' {
        let m = l.drop_last();
        reveal_strlit("=");
        assert(l =~= m + seq!['\r']);
        lemma_find_char(l, "="@);
        lemma_find_char(m, "="@);
        lemma_run_before_append(m, seq!['\r'], '=');
        lemma_run_before_absent(seq!['\r'], '=');
        let n = run_before(m, '=') as int;
        lemma_run_before(m, '=');
        if n < m.len() {
            assert(l.take(n) =~= m.take(n));
            assert(l.skip(n + 1) =~= m.skip(n + 1).push('\r'));
            lemma_trimmed_cr(m.skip(n + 1));
        }
    }
}

/// What `key=value` says, for a key without an equals sign.
proof fn lemma_pair_of_key(key: Seq<char>, value: Seq<char>)
    requires
        !key.contains('='),
    ensures
        pair_of(key + "="@ + value) == Some((trimmed(key), trimmed(value))),
{
    reveal_strlit("=");
    let l = key + "="@ + value;
    assert(l =~= key + ("="@ + value));
    lemma_find_char(l, "="@);
    lemma_run_before_absent(key, '=');
    lemma_run_before_append(key, "="@ + value, '=');
    assert(run_before("="@ + value, '=') == 0);
    assert(l.take(key.len() as int) =~= key);
    assert(l.skip(key.len() as int + 1) =~= value);
}

proof fn lemma_first_value_append(a: Seq<Seq<char>>, b: Seq<Seq<char>>, key: Seq<char>)
    ensures
        first_value(a + b, key) == (match first_value(a, key) {
            Some(v) => Some(v),
            None => first_value(b, key),
        }),
    decreases a.len(),
{
    if a.len() == 0 {
        assert(a + b =~= b);
    } else {
        lemma_first_value_append(a.skip(1), b, key);
        assert((a + b).skip(1) =~= a.skip(1) + b);
    }
}

proof fn lemma_first_value_one(l: Seq<char>, key: Seq<char>)
    ensures
        first_value(seq![l], key) == (match pair_of(l) {
            Some((k, v)) => if k == key {
                Some(v)
            } else {
                None
            },
            None => None::<Seq<char>>,
        }),
{
    assert(seq![l].skip(1).len() == 0);
    assert(first_value(seq![l].skip(1), key) is None);
}

/// Lines written out and read again say the same.
proof fn lemma_first_value_joined(ls: Seq<Seq<char>>, key: Seq<char>)
    requires
        forall|i: int| 0 <= i < ls.len() ==> !(#[trigger] ls[i]).contains('\n'),
    ensures
        first_value(lines_of(joined(ls, "\n"@)), key) == first_value(ls, key),
    decreases ls.len(),
{
    reveal_strlit("\n");
    reveal_strlit("=");
    assert("\n"@ =~= seq!['\n']);
    if ls.len() == 0 {
        assert(lines_of(joined(ls, "\n"@)).len() == 0);
    } else if ls.len() == 1 {
        let l = ls[0];
        assert(joined(ls, "\n"@) == l);
        assert(ls =~= seq![l]);
        if l.len() == 0 {
            assert(lines_of(l).len() == 0);
            lemma_find_char(l, "="@);
            lemma_first_value_one(l, key);
        } else {
            lemma_run_before_absent(l, '\n');
            assert(lines_of(l) =~= seq![l]);
        }
    } else {
        let l = ls[0];
        let rest = ls.skip(1);
        assert forall|i: int| 0 <= i < rest.len() implies !(#[trigger] rest[i]).contains('\n') by {
            assert(rest[i] == ls[i + 1]);
        }
        lemma_first_value_joined(rest, key);
        lemma_joined_front(ls, "\n"@);
        lemma_lines_first(l, joined(rest, "\n"@));
        lemma_pair_cr(l);
        let back = seq![without_cr(l)] + lines_of(joined(rest, "\n"@));
        assert(lines_of(joined(ls, "\n"@)) == back);
        assert(back.skip(1) =~= lines_of(joined(rest, "\n"@)));
    }
}

/// Removing the lines of one key leaves what the others say.
proof fn lemma_first_value_without(ls: Seq<Seq<char>>, key: Seq<char>, other: Seq<char>)
    requires
        !key.contains('='),
        trimmed(key) == key,
        other != key,
    ensures
        first_value(without(ls, key + "="@), other) == first_value(ls, other),
    decreases ls.len(),
{
    if ls.len() > 0 {
        lemma_first_value_without(ls.skip(1), key, other);
        let p = key + "="@;
        let l = ls[0];
        let rest = without(ls.skip(1), p);
        if p.is_prefix_of(l) {
            let v = l.skip(p.len() as int);
            assert(l =~= p + v);
            lemma_pair_of_key(key, v);
            assert(without(ls, p) =~= rest);
        } else {
            assert(without(ls, p) =~= seq![l] + rest);
            assert(without(ls, p).skip(1) =~= rest);
        }
    }
}

/// The lines that come before the key's line once it is written.
pub open spec fn lines_ahead(ls: Seq<Seq<char>>, start: int, key: Seq<char>) -> Seq<Seq<char>> {
    let rest = ls.skip(start + 1);
    let body = rest.take(lines_before(rest, is_heading()) as int);
    let p = lines_before(body, begins(key + "="@)) as int;
    if p < body.len() {
        ls.take(start + 1) + body.take(p)
    } else {
        ls.take(start + 1)
    }
}

/// Whether no line that stands ahead of the key's line gives the key another
/// value: a line before the main group, or one with space around its key.
pub open spec fn writable(content: Seq<char>, key: Seq<char>, value: Seq<char>) -> bool {
    let ls = lines_of(content);
    let start = lines_before(ls, is_main()) as int;
    start < ls.len() ==> {
        let ahead = first_value(lines_ahead(ls, start, key), key);
        ahead is None || ahead == Some(trimmed(value))
    }
}

/// A key that can be written: no equals sign, no line feed, no space around.
pub open spec fn is_key(key: Seq<char>) -> bool {
    !key.contains('=') && !key.contains('\n') && trimmed(key) == key
}

proof fn lemma_with_key(ls: Seq<Seq<char>>, key: Seq<char>, value: Seq<char>, other: Seq<char>)
    requires
        is_key(key),
        lines_before(ls, is_main()) < ls.len(),
    ensures
        ({
            let start = lines_before(ls, is_main()) as int;
            let w = with_key(ls, start, key, value);
            let ahead = first_value(lines_ahead(ls, start, key), key);
            &&& first_value(w, key) == (if ahead is Some {
                ahead
            } else {
                Some(trimmed(value))
            })
            &&& other != key ==> first_value(w, other) == first_value(ls, other)
        }),
{
    let start = lines_before(ls, is_main()) as int;
    let prefix = key + "="@;
    let line = key + "="@ + value;
    let rest = ls.skip(start + 1);
    let n = lines_before(rest, is_heading()) as int;
    lemma_lines_before(rest, is_heading());
    let head = ls.take(start + 1);
    let body = rest.take(n);
    let tail = rest.skip(n);
    let p = lines_before(body, begins(prefix)) as int;
    lemma_lines_before(body, begins(prefix));
    lemma_pair_of_key(key, value);
    lemma_first_value_one(line, key);
    lemma_first_value_one(line, other);
    assert(ls =~= head + (body + tail));
    let w = with_key(ls, start, key, value);
    if p < body.len() {
        let late = body.skip(p + 1);
        let pruned = without(late, prefix);
        assert(w =~= (head + body.take(p)) + (seq![line] + (pruned + tail)));
        lemma_first_value_append(head + body.take(p), seq![line] + (pruned + tail), key);
        lemma_first_value_append(seq![line], pruned + tail, key);
        if other != key {
            let gone = body[p];
            assert(prefix.is_prefix_of(gone));
            let v = gone.skip(prefix.len() as int);
            assert(gone =~= prefix + v);
            lemma_pair_of_key(key, v);
            lemma_first_value_one(gone, other);
            lemma_first_value_append(head + body.take(p), seq![line] + (pruned + tail), other);
            lemma_first_value_append(seq![line], pruned + tail, other);
            lemma_first_value_append(pruned, tail, other);
            lemma_first_value_without(late, key, other);
            lemma_first_value_append(late, tail, other);
            lemma_first_value_append(seq![gone], late + tail, other);
            lemma_first_value_append(head + body.take(p), seq![gone] + (late + tail), other);
            assert(ls =~= (head + body.take(p)) + (seq![gone] + (late + tail)));
        }
    } else {
        assert(w =~= head + (seq![line] + (body + tail)));
        lemma_first_value_append(head, seq![line] + (body + tail), key);
        lemma_first_value_append(seq![line], body + tail, key);
        if other != key {
            lemma_first_value_append(head, seq![line] + (body + tail), other);
            lemma_first_value_append(seq![line], body + tail, other);
            lemma_first_value_append(head, body + tail, other);
        }
    }
}

proof fn lemma_with_key_whole(ls: Seq<Seq<char>>, start: int, key: Seq<char>, value: Seq<char>)
    requires
        0 <= start < ls.len(),
        forall|i: int| 0 <= i < ls.len() ==> !(#[trigger] ls[i]).contains('\n'),
        !key.contains('\n'),
        !value.contains('\n'),
    ensures
        forall|i: int|
            0 <= i < with_key(ls, start, key, value).len() ==> !(#[trigger] with_key(
                ls,
                start,
                key,
                value,
            )[i]).contains('\n'),
{
    let w = with_key(ls, start, key, value);
    let prefix = key + "="@;
    let line = key + "="@ + value;
    reveal_strlit("=");
    if line.contains('\n') {
        let k = choose|k: int| 0 <= k < line.len() && line[k] == '\n';
        if k < key.len() {
            assert(key[k] == '\n');
        } else if k > key.len() {
            assert(value[k - key.len() - 1] == '\n');
        }
    }
    let rest = ls.skip(start + 1);
    let n = lines_before(rest, is_heading()) as int;
    lemma_lines_before(rest, is_heading());
    let body = rest.take(n);
    let p = lines_before(body, begins(prefix)) as int;
    lemma_lines_before(body, begins(prefix));
    assert forall|i: int| 0 <= i < rest.len() implies !(#[trigger] rest[i]).contains('\n') by {
        assert(rest[i] == ls[start + 1 + i]);
    }
    let mid = rewritten(body, prefix, line);
    assert forall|i: int| 0 <= i < mid.len() implies !(#[trigger] mid[i]).contains('\n') by {
        if p < body.len() {
            let late = body.skip(p + 1);
            if i < p {
                assert(mid[i] == rest[i]);
            } else if i == p {
                assert(mid[i] == line);
            } else {
                lemma_without_from(late, prefix, i - p - 1);
                assert(mid[i] == without(late, prefix)[i - p - 1]);
                let k = choose|k: int| 0 <= k < late.len() && #[trigger] late[k] == mid[i];
                assert(late[k] == rest[p + 1 + k]);
            }
        } else if i == 0 {
            assert(mid[i] == line);
        } else {
            assert(mid[i] == rest[i - 1]);
        }
    }
    assert forall|i: int| 0 <= i < w.len() implies !(#[trigger] w[i]).contains('\n') by {
        if i < start + 1 {
            assert(w[i] == ls[i]);
        } else if i < start + 1 + mid.len() {
            assert(w[i] == mid[i - start - 1]);
        } else {
            assert(w[i] == rest[n + (i - start - 1 - mid.len())]);
        }
    }
}

proof fn lemma_without_from(ls: Seq<Seq<char>>, prefix: Seq<char>, i: int)
    requires
        0 <= i < without(ls, prefix).len(),
    ensures
        exists|k: int| 0 <= k < ls.len() && #[trigger] ls[k] == without(ls, prefix)[i],
    decreases ls.len(),
{
    if ls.len() > 0 {
        let rest = without(ls.skip(1), prefix);
        let shift: int = if prefix.is_prefix_of(ls[0]) {
            0
        } else {
            1
        };
        if shift == 0 {
            assert(without(ls, prefix) =~= rest);
        } else {
            assert(without(ls, prefix) =~= seq![ls[0]] + rest);
        }
        if i >= shift {
            lemma_without_from(ls.skip(1), prefix, i - shift);
            let k = choose|k: int|
                0 <= k < ls.skip(1).len() && #[trigger] ls.skip(1)[k] == rest[i - shift];
            assert(ls[k + 1] == without(ls, prefix)[i]);
        } else {
            assert(ls[0] == without(ls, prefix)[0]);
        }
    }
}

/// Reading a key after writing it gives the value back, and writing it
/// changes no other key.
pub proof fn law_key_reads_back(
    content: Seq<char>,
    key: Seq<char>,
    value: Seq<char>,
    other: Seq<char>,
)
    requires
        is_key(key),
        !value.contains('\n'),
        writable(content, key, value),
        other != key,
    ensures
        first_value(lines_of(key_set(content, key, value)), key) == Some(trimmed(value)),
        first_value(lines_of(key_set(content, key, value)), other) == first_value(
            lines_of(content),
            other,
        ),
{
    let ls = lines_of(content);
    let start = lines_before(ls, is_main()) as int;
    lemma_lines_whole(content);
    lemma_lines_before(ls, is_main());
    if start < ls.len() {
        let w = with_key(ls, start, key, value);
        lemma_with_key(ls, key, value, other);
        lemma_with_key_whole(ls, start, key, value);
        lemma_first_value_joined(w, key);
        lemma_first_value_joined(w, other);
    } else {
        let line = key + "="@ + value;
        reveal_strlit("[Desktop Entry]\n");
        reveal_strlit("[Desktop Entry]");
        reveal_strlit("\n");
        reveal_strlit("=");
        let title = "[Desktop Entry]"@;
        assert("[Desktop Entry]\n"@ =~= title + seq!['\n']);
        assert("\n"@ =~= seq!['\n']);
        if line.contains('\n') {
            let k = choose|k: int| 0 <= k < line.len() && line[k] == '\n';
            if k < key.len() {
                assert(key[k] == '\n');
            } else if k > key.len() {
                assert(value[k - key.len() - 1] == '\n');
            }
        }
        let tail = line + seq!['\n'] + content;
        let t = key_set(content, key, value);
        assert(t =~= title + seq!['\n'] + tail);
        lemma_lines_first(title, tail);
        lemma_lines_first(line, content);
        let back = seq![without_cr(title)] + (seq![without_cr(line)] + ls);
        assert(lines_of(t) == back);
        lemma_pair_cr(line);
        lemma_pair_of_key(key, value);
        lemma_find_char(title, "="@);
        lemma_run_before_absent(title, '=');
        lemma_pair_cr(title);
        lemma_first_value_one(without_cr(title), key);
        lemma_first_value_one(without_cr(title), other);
        lemma_first_value_one(without_cr(line), key);
        lemma_first_value_one(without_cr(line), other);
        lemma_first_value_append(seq![without_cr(title)], seq![without_cr(line)] + ls, key);
        lemma_first_value_append(seq![without_cr(title)], seq![without_cr(line)] + ls, other);
        lemma_first_value_append(seq![without_cr(line)], ls, key);
        lemma_first_value_append(seq![without_cr(line)], ls, other);
    }
}

/// A program that was switched on is listed as starting at login, one that was
/// switched off is not, and its name and comment stay.
pub proof fn law_switch_takes_effect(file: Seq<char>, content: Seq<char>, hidden: bool)
    requires
        writable(
            content,
            "Hidden"@,
            if hidden {
                "true"@
            } else {
                "false"@
            },
        ),
        writable(
            key_set(
                content,
                "Hidden"@,
                if hidden {
                    "true"@
                } else {
                    "false"@
                },
            ),
            "X-GNOME-Autostart-enabled"@,
            if hidden {
                "false"@
            } else {
                "true"@
            },
        ),
    ensures
        app_of(file, switched(content, hidden)) == (StartupAppView {
            enabled: !hidden,
            ..app_of(file, content)
        }),
{
    let h = "Hidden"@;
    let x = "X-GNOME-Autostart-enabled"@;
    let hv = if hidden {
        "true"@
    } else {
        "false"@
    };
    let xv = if hidden {
        "false"@
    } else {
        "true"@
    };
    reveal_strlit("Hidden");
    reveal_strlit("X-GNOME-Autostart-enabled");
    reveal_strlit("true");
    reveal_strlit("false");
    reveal_strlit("Name");
    reveal_strlit("Comment");
    assert(trimmed(h) == h);
    assert(trimmed(x) == x);
    assert(trimmed(hv) == hv);
    assert(trimmed(xv) == xv);
    let one = key_set(content, h, hv);
    assert(h.len() != x.len());
    assert("Name"@.len() == 4 && "Comment"@.len() == 7);
    law_key_reads_back(content, h, hv, "Name"@);
    law_key_reads_back(content, h, hv, "Comment"@);
    law_key_reads_back(one, x, xv, h);
    law_key_reads_back(one, x, xv, "Name"@);
    law_key_reads_back(one, x, xv, "Comment"@);
}

/// Of two values written to a key, the last is the one that is read.
pub proof fn law_last_write_wins(
    content: Seq<char>,
    key: Seq<char>,
    first: Seq<char>,
    second: Seq<char>,
)
    requires
        is_key(key),
        !second.contains('\n'),
        writable(key_set(content, key, first), key, second),
    ensures
        first_value(lines_of(key_set(key_set(content, key, first), key, second)), key) == Some(
            trimmed(second),
        ),
{
    let other = key.push('x');
    assert(other.len() != key.len());
    law_key_reads_back(key_set(content, key, first), key, second, other);
}

proof fn lemma_lines_before_at(ls: Seq<Seq<char>>, p: spec_fn(Seq<char>) -> bool, n: int)
    requires
        0 <= n <= ls.len(),
        forall|i: int| 0 <= i < n ==> !p(#[trigger] ls[i]),
        n < ls.len() ==> p(ls[n]),
    ensures
        lines_before(ls, p) == n,
{
    lemma_lines_before(ls, p);
    let m = lines_before(ls, p) as int;
    if m < n {
        assert(!p(ls[m]));
    } else if n < m {
        assert(!p(ls[n]));
    }
}

proof fn lemma_without_none(ls: Seq<Seq<char>>, prefix: Seq<char>)
    requires
        forall|i: int| 0 <= i < ls.len() ==> !prefix.is_prefix_of(#[trigger] ls[i]),
    ensures
        without(ls, prefix) == ls,
    decreases ls.len(),
{
    if ls.len() > 0 {
        let rest = ls.skip(1);
        assert forall|i: int| 0 <= i < rest.len() implies !prefix.is_prefix_of(
            #[trigger] rest[i],
        ) by {
            assert(rest[i] == ls[i + 1]);
        }
        lemma_without_none(rest, prefix);
        assert(!prefix.is_prefix_of(ls[0]));
        assert(without(ls, prefix) =~= seq![ls[0]] + without(rest, prefix));
        assert(seq![ls[0]] + rest =~= ls);
    }
}

proof fn lemma_without_clear(ls: Seq<Seq<char>>, prefix: Seq<char>)
    ensures
        forall|i: int|
            0 <= i < without(ls, prefix).len() ==> !prefix.is_prefix_of(
                #[trigger] without(ls, prefix)[i],
            ),
    decreases ls.len(),
{
    if ls.len() > 0 {
        let rest = without(ls.skip(1), prefix);
        lemma_without_clear(ls.skip(1), prefix);
        if prefix.is_prefix_of(ls[0]) {
            assert(without(ls, prefix) =~= rest);
        } else {
            let all = seq![ls[0]] + rest;
            assert(without(ls, prefix) =~= all);
            assert forall|i: int| 0 <= i < all.len() implies !prefix.is_prefix_of(
                #[trigger] all[i],
            ) by {
                if i > 0 {
                    assert(all[i] == rest[i - 1]);
                }
            }
        }
    }
}

proof fn lemma_rewritten_twice(
    body: Seq<Seq<char>>,
    prefix: Seq<char>,
    first: Seq<char>,
    second: Seq<char>,
)
    requires
        prefix.is_prefix_of(first),
    ensures
        rewritten(rewritten(body, prefix, first), prefix, second) == rewritten(
            body,
            prefix,
            second,
        ),
{
    let p = lines_before(body, begins(prefix)) as int;
    lemma_lines_before(body, begins(prefix));
    let mid = rewritten(body, prefix, first);
    if p < body.len() {
        let late = without(body.skip(p + 1), prefix);
        assert forall|i: int| 0 <= i < p implies !begins(prefix)(#[trigger] mid[i]) by {
            assert(mid[i] == body[i]);
        }
        assert(mid[p] == first);
        lemma_lines_before_at(mid, begins(prefix), p);
        lemma_without_clear(body.skip(p + 1), prefix);
        lemma_without_none(late, prefix);
        assert(mid.take(p) =~= body.take(p));
        assert(mid.skip(p + 1) =~= late);
    } else {
        assert(mid[0] == first);
        lemma_lines_before_at(mid, begins(prefix), 0);
        assert forall|i: int| 0 <= i < body.len() implies !prefix.is_prefix_of(
            #[trigger] body[i],
        ) by {
            assert(!begins(prefix)(body[i]));
        }
        lemma_without_none(body, prefix);
        assert(mid.skip(1) =~= body);
        assert(mid.take(0) =~= Seq::empty());
        assert(Seq::<Seq<char>>::empty() + seq![second] + body =~= seq![second] + body);
    }
}

proof fn lemma_with_key_twice(
    ls: Seq<Seq<char>>,
    start: int,
    key: Seq<char>,
    first: Seq<char>,
    second: Seq<char>,
)
    requires
        0 <= start < ls.len(),
        !is_heading()(key + "="@ + first),
    ensures
        with_key(with_key(ls, start, key, first), start, key, second) == with_key(
            ls,
            start,
            key,
            second,
        ),
{
    let prefix = key + "="@;
    let line = key + "="@ + first;
    let rest = ls.skip(start + 1);
    let n = lines_before(rest, is_heading()) as int;
    lemma_lines_before(rest, is_heading());
    let body = rest.take(n);
    let tail = rest.skip(n);
    let mid = rewritten(body, prefix, line);
    let w = with_key(ls, start, key, first);
    let p = lines_before(body, begins(prefix)) as int;
    lemma_lines_before(body, begins(prefix));
    assert forall|i: int| 0 <= i < mid.len() implies !is_heading()(#[trigger] mid[i]) by {
        if p < body.len() {
            let late = body.skip(p + 1);
            if i < p {
                assert(mid[i] == rest[i]);
            } else if i == p {
                assert(mid[i] == line);
            } else {
                lemma_without_from(late, prefix, i - p - 1);
                assert(mid[i] == without(late, prefix)[i - p - 1]);
                let k = choose|k: int| 0 <= k < late.len() && #[trigger] late[k] == mid[i];
                assert(late[k] == rest[p + 1 + k]);
            }
        } else if i == 0 {
            assert(mid[i] == line);
        } else {
            assert(mid[i] == rest[i - 1]);
        }
    }
    let after = w.skip(start + 1);
    assert(after =~= mid + tail);
    let m = mid.len() as int;
    assert forall|i: int| 0 <= i < m implies !is_heading()(#[trigger] after[i]) by {
        assert(after[i] == mid[i]);
    }
    if m < after.len() {
        assert(after[m] == rest[n]);
    }
    lemma_lines_before_at(after, is_heading(), m);
    assert(after.take(m) =~= mid);
    assert(after.skip(m) =~= tail);
    assert(w.take(start + 1) =~= ls.take(start + 1));
    assert(prefix =~= line.subrange(0, prefix.len() as int));
    lemma_rewritten_twice(body, prefix, line, key + "="@ + second);
}

/// Only the key's own line depends on the value.
proof fn lemma_with_key_line(
    ls: Seq<Seq<char>>,
    start: int,
    key: Seq<char>,
    a: Seq<char>,
    b: Seq<char>,
)
    requires
        0 <= start < ls.len(),
    ensures
        lines_ahead(ls, start, key).len() < with_key(ls, start, key, a).len(),
        with_key(ls, start, key, a)[lines_ahead(ls, start, key).len() as int] == key + "="@ + a,
        with_key(ls, start, key, b) == with_key(ls, start, key, a).update(
            lines_ahead(ls, start, key).len() as int,
            key + "="@ + b,
        ),
{
    let rest = ls.skip(start + 1);
    let n = lines_before(rest, is_heading()) as int;
    lemma_lines_before(rest, is_heading());
    let body = rest.take(n);
    lemma_lines_before(body, begins(key + "="@));
    let q = lines_ahead(ls, start, key).len() as int;
    assert(with_key(ls, start, key, b) =~= with_key(ls, start, key, a).update(
        q,
        key + "="@ + b,
    ));
}

/// Lines written out and read again: a carriage return at the end of any but
/// the last is lost.
proof fn lemma_lines_joined(ls: Seq<Seq<char>>)
    requires
        ls.len() > 0,
        ls.last().len() > 0,
        forall|i: int| 0 <= i < ls.len() ==> !(#[trigger] ls[i]).contains('\n'),
    ensures
        lines_of(joined(ls, "\n"@)).len() == ls.len(),
        lines_of(joined(ls, "\n"@)).last() == ls.last(),
        forall|i: int|
            0 <= i < ls.len() - 1 ==> #[trigger] lines_of(joined(ls, "\n"@))[i] == without_cr(ls[i]),
    decreases ls.len(),
{
    reveal_strlit("\n");
    assert("\n"@ =~= seq!['\n']);
    let l = ls[0];
    if ls.len() == 1 {
        assert(joined(ls, "\n"@) == l);
        lemma_run_before_absent(l, '\n');
        assert(lines_of(l) =~= seq![l]);
    } else {
        let rest = ls.skip(1);
        assert forall|i: int| 0 <= i < rest.len() implies !(#[trigger] rest[i]).contains('\n') by {
            assert(rest[i] == ls[i + 1]);
        }
        assert(rest.last() == ls.last());
        lemma_lines_joined(rest);
        lemma_joined_front(ls, "\n"@);
        lemma_lines_first(l, joined(rest, "\n"@));
        let later = lines_of(joined(rest, "\n"@));
        let back = seq![without_cr(l)] + later;
        assert(lines_of(joined(ls, "\n"@)) == back);
        assert(back.last() == later.last());
        assert forall|i: int| 0 <= i < ls.len() - 1 implies #[trigger] back[i] == without_cr(ls[i]) by {
            if i > 0 {
                assert(back[i] == later[i - 1]);
                assert(rest[i - 1] == ls[i]);
            }
        }
    }
}

/// Whether writing a key changes nothing but the key's lines, so that writing
/// it again finds the others as they were: apart from the key's own, no line
/// but the last ends with a carriage return, and the last is not empty.
pub open spec fn keeps_lines(content: Seq<char>, key: Seq<char>) -> bool {
    let ls = lines_of(content);
    let start = lines_before(ls, is_main()) as int;
    let w = with_key(ls, start, key, Seq::empty());
    &&& start < ls.len()
    &&& w.last().len() > 0
    &&& forall|i: int| 0 <= i < w.len() - 1 ==> without_cr(#[trigger] w[i]) == w[i]
}

/// Of two values written to a key of a file's main group, the first leaves no
/// trace: the text is that of the second alone.
pub proof fn law_last_write_is_all(
    content: Seq<char>,
    key: Seq<char>,
    first: Seq<char>,
    second: Seq<char>,
)
    requires
        !key.contains('\n'),
        !first.contains('\n'),
        !is_heading()(key + "="@ + first),
        keeps_lines(content, key),
    ensures
        key_set(key_set(content, key, first), key, second) == key_set(content, key, second),
{
    reveal_strlit("=");
    let ls = lines_of(content);
    let start = lines_before(ls, is_main()) as int;
    lemma_lines_whole(content);
    lemma_lines_before(ls, is_main());
    let none = Seq::<char>::empty();
    let bare = with_key(ls, start, key, none);
    let w = with_key(ls, start, key, first);
    let q = lines_ahead(ls, start, key).len() as int;
    lemma_with_key_line(ls, start, key, none, first);
    lemma_with_key_whole(ls, start, key, first);
    let line = key + "="@ + first;
    assert(w.last().len() > 0) by {
        if q == w.len() - 1 {
            assert(w.last() == line);
        } else {
            assert(w.last() == bare.last());
        }
    }
    lemma_lines_joined(w);
    let back = lines_of(joined(w, "\n"@));

    // The value as it is read again.
    let v = if q < w.len() - 1 {
        without_cr(first)
    } else {
        first
    };
    let read = key + "="@ + v;
    assert(q < w.len() - 1 ==> without_cr(line) =~= read);
    lemma_with_key_line(ls, start, key, first, v);
    assert forall|i: int| 0 <= i < w.len() implies back[i] == #[trigger] w.update(q, read)[i] by {
        if i < w.len() - 1 {
            assert(back[i] == without_cr(w[i]));
            if i != q {
                assert(w[i] == bare[i]);
                assert(without_cr(bare[i]) == bare[i]);
            }
        } else {
            assert(back.last() == w.last());
        }
    }
    let again = with_key(ls, start, key, v);
    assert(back =~= again);

    assert forall|i: int| 0 <= i < start implies !is_main()(#[trigger] again[i]) by {
        assert(again[i] == ls[i]);
    }
    assert(again[start] == ls[start]);
    lemma_lines_before_at(again, is_main(), start);
    assert(!is_heading()(read)) by {
        if v != first {
            assert(first =~= v.push('\r'));
            assert(line =~= read.push('\r'));
            lemma_trimmed_cr(read);
        }
    }
    lemma_with_key_twice(ls, start, key, v, second);
}

/// Writing a key leaves every line ahead of the main group and every line of
/// the groups behind it as it was.
pub proof fn law_other_groups_untouched(
    ls: Seq<Seq<char>>,
    start: int,
    key: Seq<char>,
    value: Seq<char>,
)
    requires
        0 <= start < ls.len(),
    ensures
        ({
            let w = with_key(ls, start, key, value);
            let after = lines_before(ls.skip(start + 1), is_heading()) as int;
            let tail = ls.skip(start + 1).skip(after);
            &&& w.take(start + 1) == ls.take(start + 1)
            &&& w.len() >= start + 1 + tail.len()
            &&& w.skip(w.len() - tail.len()) == tail
        }),
{
    let rest = ls.skip(start + 1);
    lemma_lines_before(rest, is_heading());
    let n = lines_before(rest, is_heading()) as int;
    let w = with_key(ls, start, key, value);
    let mid = rewritten(rest.take(n), key + "="@, key + "="@ + value);
    assert(w.take(start + 1) =~= ls.take(start + 1));
    assert(w.skip(w.len() - rest.skip(n).len()) =~= rest.skip(n));
}

// --- services ---------------------------------------------------------------

/// A system service.
#[derive(Clone)]
pub struct Service {
    pub unit: String,
    pub description: String,
    /// Running now.
    pub active: bool,
    /// Starts at boot.
    pub enabled: bool,
    /// Critical: shown, never stopped.
    pub protected: bool,
}

#[verifier::ext_equal]
pub struct ServiceView {
    pub unit: Seq<char>,
    pub description: Seq<char>,
    pub active: bool,
    pub enabled: bool,
    pub protected: bool,
}

impl View for Service {
    type V = ServiceView;

    open spec fn view(&self) -> ServiceView {
        ServiceView {
            unit: self.unit@,
            description: self.description@,
            active: self.active,
            enabled: self.enabled,
            protected: self.protected,
        }
    }
}

/// Units that are critical under exactly this name.
pub open spec fn critical_units() -> Seq<Seq<char>> {
    seq![
        "gdm.service"@,
        "gdm3.service"@,
        "lightdm.service"@,
        "sddm.service"@,
        "NetworkManager.service"@,
        "dbus.service"@,
        "polkit.service"@,
        "wpa_supplicant.service"@,
        "accounts-daemon.service"@,
    ]
}

/// Prefixes of the names of critical units.
pub open spec fn critical_prefixes() -> Seq<Seq<char>> {
    seq!["systemd-"@, "user@"@, "user-runtime-dir@"@, "getty@"@, "dbus"@]
}

/// A unit whose stop would break the session, the network or the login.
pub open spec fn critical_unit(u: Seq<char>) -> bool {
    critical_units().contains(u) || begins_with_any(u, critical_prefixes())
}

pub fn is_critical_unit(u: &str) -> (r: bool)
    ensures
        r == critical_unit(u@),
{
    let units = vec![
        "gdm.service",
        "gdm3.service",
        "lightdm.service",
        "sddm.service",
        "NetworkManager.service",
        "dbus.service",
        "polkit.service",
        "wpa_supplicant.service",
        "accounts-daemon.service",
    ];
    let prefixes = vec!["systemd-", "user@", "user-runtime-dir@", "getty@", "dbus"];
    assert(views(units@) =~= critical_units());
    assert(views(prefixes@) =~= critical_prefixes());
    let c = to_chars(u);
    listed(&c, &units) || prefix_listed(&c, &prefixes)
}

/// A unit and whether it starts at boot, from a line of unit files.
pub open spec fn boot_row(line: Seq<char>) -> Option<(Seq<char>, bool)> {
    let w = words_of(line);
    if w.len() >= 2 {
        Some((w[0], w[1] == "enabled"@))
    } else {
        None
    }
}

/// Reads a line of unit files.
pub struct BootLine;

impl LineReader for BootLine {
    type Row = (String, bool);

    open spec fn row_of(line: Seq<char>) -> Option<(Seq<char>, bool)> {
        boot_row(line)
    }

    fn read(line: &[char]) -> (r: Option<(String, bool)>) {
        let w = words(line);
        if w.len() >= 2 {
            assert(views(w@)[0] == w@[0]@);
            assert(views(w@)[1] == w@[1]@);
            let on = is_text(w[1], "enabled");
            assert(on@ == on);
            Some((to_text(w[0]), on))
        } else {
            None
        }
    }
}

/// Whether a unit starts at boot: what the last row for it says.
pub open spec fn boots(rows: Seq<(Seq<char>, bool)>, unit: Seq<char>) -> bool
    decreases rows.len(),
{
    if rows.len() == 0 {
        false
    } else if rows.last().0 == unit {
        rows.last().1
    } else {
        boots(rows.drop_last(), unit)
    }
}

fn starts_at_boot(rows: &[(String, bool)], unit: &str) -> (r: bool)
    ensures
        r == boots(views(rows@), unit@),
{
    let ghost vs = views(rows@);
    let mut i: usize = rows.len();
    assert(vs.take(i as int) =~= vs);
    while i > 0
        invariant
            i <= rows@.len(),
            vs == views(rows@),
            boots(vs, unit@) == boots(vs.take(i as int), unit@),
        decreases i,
    {
        assert(vs.take(i as int).last() == rows@[i - 1]@);
        assert(vs.take(i as int).drop_last() =~= vs.take(i as int - 1));
        if same_text(rows[i - 1].0.as_str(), unit) {
            return rows[i - 1].1;
        }
        i -= 1;
    }
    false
}

/// The service that a line of units stands for: unit, load state, activity,
/// sub-state and description. Templates stand for none.
pub open spec fn unit_row(line: Seq<char>) -> Option<ServiceView> {
    let w = words_of(line);
    if w.len() > 0 && ".service"@.is_suffix_of(w[0]) && !occurs(w[0], "@"@) {
        Some(
            ServiceView {
                unit: w[0],
                description: if w.len() > 4 {
                    joined(w.skip(4), " "@)
                } else {
                    Seq::empty()
                },
                active: field_of(w, 2) == "active"@,
                enabled: false,
                protected: critical_unit(w[0]),
            },
        )
    } else {
        None
    }
}

/// Reads a line of units; whether the unit starts at boot stands elsewhere.
pub struct UnitLine;

impl LineReader for UnitLine {
    type Row = Service;

    open spec fn row_of(line: Seq<char>) -> Option<ServiceView> {
        unit_row(line)
    }

    fn read(line: &[char]) -> (r: Option<Service>) {
        let w = words(line);
        let n = w.len();
        if n == 0 {
            return None;
        }
        assert(views(w@)[0] == w@[0]@);
        if !ends_with(w[0], ".service") || contains(w[0], "@") {
            return None;
        }
        let unit = to_text(w[0]);
        let active = is_text(field(&w, 2), "active");
        let description = if n > 4 {
            let rest = vstd::slice::slice_subrange(&w, 4, n);
            assert(views(rest@) =~= views(w@).skip(4));
            join_slices(rest, " ")
        } else {
            String::new()
        };
        let protected = is_critical_unit(unit.as_str());
        Some(Service { unit, description, active, enabled: false, protected })
    }
}

/// A service with what is known of its start at boot.
pub open spec fn service_of(s: ServiceView, boot: Seq<(Seq<char>, bool)>) -> ServiceView {
    ServiceView { enabled: boots(boot, s.unit), ..s }
}

/// Running services first, each kind by unit whatever its case.
pub open spec fn running_first(a: ServiceView, b: ServiceView) -> bool {
    (a.active && !b.active) || (a.active == b.active && text_lt(
        lowercase(a.unit),
        lowercase(b.unit),
    ))
}

impl Ranked for Service {
    open spec fn precedes(a: ServiceView, b: ServiceView) -> bool {
        running_first(a, b)
    }

    fn before(&self, other: &Self) -> (r: bool) {
        let a = self.unit.as_str().to_lowercase();
        let b = other.unit.as_str().to_lowercase();
        (self.active && !other.active) || (self.active == other.active && string_less(
            a.as_str(),
            b.as_str(),
        ))
    }

    proof fn law_precedes(a: ServiceView, b: ServiceView, c: ServiceView) {
        law_text_order(lowercase(a.unit), lowercase(b.unit), lowercase(c.unit));
        law_text_order(lowercase(b.unit), lowercase(a.unit), lowercase(c.unit));
    }
}

/// The services drawn from the unit files and the units.
pub open spec fn services_of(files: Seq<char>, units: Seq<char>) -> Seq<ServiceView> {
    sorted_by(
        rows_of::<UnitLine>(units).map_values(
            |s: ServiceView| service_of(s, rows_of::<BootLine>(files)),
        ),
        order_of::<Service>(),
    )
}

pub fn list_services(files: &str, units: &str) -> (r: Vec<Service>)
    ensures
        views(r@) == services_of(files@, units@),
{
    broadcast use lemma_views_push;

    let boot = rows::<BootLine>(files);
    let found = rows::<UnitLine>(units);
    let ghost bv = views(boot@);
    let ghost f = |s: ServiceView| service_of(s, bv);
    let ghost all = views(found@).map_values(f);
    let mut out: Vec<Service> = Vec::new();
    assert(views(out@) =~= all.take(0));
    for s in it: found
        invariant
            it.seq() == found@,
            bv == views(boot@),
            f == (|s: ServiceView| service_of(s, bv)),
            all == views(found@).map_values(f),
            views(out@) == all.take(it.index() as int),
    {
        let ghost i = it.index() as int;
        assert(all[i] == service_of(s@, bv));
        let enabled = starts_at_boot(&boot, s.unit.as_str());
        let t = Service {
            unit: s.unit,
            description: s.description,
            active: s.active,
            enabled,
            protected: s.protected,
        };
        assert(t@ =~= all[i]);
        out.push(t);
        assert(all.take(i + 1) =~= all.take(i).push(all[i]));
    }
    assert(all.take(all.len() as int) =~= all);
    assert(bv == rows_of::<BootLine>(files@));
    stable_sort(out)
}

/// The services stand with the running ones first, then by unit.
pub proof fn law_services_ordered(files: Seq<char>, units: Seq<char>)
    ensures
        in_order(services_of(files, units), order_of::<Service>()),
{
    law_ranked_sort::<Service>(
        rows_of::<UnitLine>(units).map_values(
            |s: ServiceView| service_of(s, rows_of::<BootLine>(files)),
        ),
    );
}

// --- validation -------------------------------------------------------------

/// The name of a startup file: one plain path component with its extension.
pub open spec fn is_desktop_file(s: Seq<char>) -> bool {
    ".desktop"@.is_suffix_of(s) && is_plain(s, "._-+"@, 200) && !occurs(s, ".."@)
}

pub fn valid_desktop_file(file: &str) -> (r: bool)
    ensures
        r == is_desktop_file(file@),
{
    let c = to_chars(file);
    ends_with(&c, ".desktop") && plain(&c, "._-+", 200) && !contains(&c, "..")
}

/// A unit name: letters, digits and `._-@:\`, fewer than 200.
pub open spec fn is_unit(s: Seq<char>) -> bool {
    is_plain(s, "._-@:\\"@, 200)
}

pub fn valid_unit(u: &str) -> (r: bool)
    ensures
        r == is_unit(u@),
{
    plain(&to_chars(u), "._-@:\\", 200)
}

// --- state ------------------------------------------------------------------

/// What the startup tab shows.
pub struct StartupState {
    pub loading: bool,
    pub loaded: bool,
    pub apps: Vec<StartupApp>,
    pub services: Vec<Service>,
    pub busy: bool,
    pub error: Option<String>,
}

#[verifier::ext_equal]
pub struct StartupView {
    pub loading: bool,
    pub loaded: bool,
    pub apps: Seq<StartupAppView>,
    pub services: Seq<ServiceView>,
    pub busy: bool,
    pub error: Option<Seq<char>>,
}

impl View for StartupState {
    type V = StartupView;

    open spec fn view(&self) -> StartupView {
        StartupView {
            loading: self.loading,
            loaded: self.loaded,
            apps: views(self.apps@),
            services: views(self.services@),
            busy: self.busy,
            error: opt(self.error),
        }
    }
}

impl StartupView {
    /// Nothing listed, nothing running.
    pub open spec fn initial() -> StartupView {
        StartupView {
            loading: false,
            loaded: false,
            apps: Seq::empty(),
            services: Seq::empty(),
            busy: false,
            error: None,
        }
    }
}

impl Default for StartupState {
    fn default() -> (r: Self)
        ensures
            r@ == StartupView::initial(),
    {
        let r = StartupState {
            loading: false,
            loaded: false,
            apps: Vec::new(),
            services: Vec::new(),
            busy: false,
            error: None,
        };
        assert(r@ =~= StartupView::initial());
        r
    }
}

/// What comes of asking for a service action.
#[derive(Clone, Copy, Debug, PartialEq, Eq, Structural)]
pub enum Action {
    /// Something is running, or the unit name is not one.
    Idle,
    /// Refused; the state says why.
    Refused,
    /// Run the action as the administrator.
    Start,
}

/// What asking for a service action gives.
pub open spec fn action_of(s: StartupView, unit: Seq<char>, action: Seq<char>) -> Action {
    if s.busy || !is_unit(unit) {
        Action::Idle
    } else if action == "stop"@ && critical_unit(unit) {
        Action::Refused
    } else {
        Action::Start
    }
}

/// The startup tab's worker: what may start, and what each outcome changes.
pub struct StartupMgr {
    pub state: StartupState,
}

impl View for StartupMgr {
    type V = StartupView;

    open spec fn view(&self) -> StartupView {
        self.state@
    }
}

impl StartupMgr {
    pub fn new() -> (r: Self)
        ensures
            r@ == StartupView::initial(),
    {
        StartupMgr { state: StartupState::default() }
    }

    pub fn is_busy(&self) -> (r: bool)
        ensures
            r == self@.busy,
    {
        self.state.busy
    }

    pub fn is_loading(&self) -> (r: bool)
        ensures
            r == self@.loading,
    {
        self.state.loading
    }

    /// Whether a listing starts now.
    pub fn load(&mut self) -> (start: bool)
        ensures
            start == !(old(self)@.loading || old(self)@.busy),
            final(self)@ == if start {
                StartupView { loading: true, error: None, ..old(self)@ }
            } else {
                old(self)@
            },
    {
        if self.is_loading() || self.is_busy() {
            return false;
        }
        self.state.loading = true;
        self.state.error = None;
        true
    }

    /// Takes in a finished listing.
    pub fn loaded(&mut self, apps: Vec<StartupApp>, services: Vec<Service>)
        ensures
            final(self)@ == (StartupView {
                apps: views(apps@),
                services: views(services@),
                loading: false,
                loaded: true,
                ..old(self)@
            }),
    {
        self.state.apps = apps;
        self.state.services = services;
        self.state.loading = false;
        self.state.loaded = true;
    }

    /// Whether a switch of a startup file starts now.
    pub fn toggle_startup(&mut self, file: &str) -> (start: bool)
        ensures
            start == (!old(self)@.busy && !old(self)@.loading && is_desktop_file(file@)),
            final(self)@ == if start {
                StartupView { busy: true, error: None, ..old(self)@ }
            } else {
                old(self)@
            },
    {
        if self.is_busy() || self.is_loading() || !valid_desktop_file(file) {
            return false;
        }
        self.state.busy = true;
        self.state.error = None;
        true
    }

    /// Takes in a switch that ran, with a fresh listing; `failed` holds the
    /// writer's message.
    pub fn toggled(&mut self, file: &str, apps: Vec<StartupApp>, failed: Option<String>)
        ensures
            final(self)@ == (StartupView {
                apps: views(apps@),
                busy: false,
                error: match opt(failed) {
                    Some(e) => Some("Couldn't update "@ + file@ + ": "@ + e),
                    None => None,
                },
                ..old(self)@
            }),
    {
        self.state.apps = apps;
        self.state.busy = false;
        self.state.error = match failed {
            Some(e) => {
                let mut m = "Couldn't update ".to_owned();
                m.append(file);
                m.append(": ");
                m.append(e.as_str());
                Some(m)
            },
            None => None,
        };
    }

    /// Asks to start or stop a service.
    pub fn service_action(&mut self, unit: &str, action: &str) -> (r: Action)
        ensures
            r == action_of(old(self)@, unit@, action@),
            final(self)@ == (match r {
                Action::Idle => old(self)@,
                Action::Refused => StartupView {
                    error: Some(
                        unit@ + " is a critical system service and can't be stopped here."@,
                    ),
                    ..old(self)@
                },
                Action::Start => StartupView { busy: true, error: None, ..old(self)@ },
            }),
    {
        if self.is_busy() || !valid_unit(unit) {
            return Action::Idle;
        }
        if same_text(action, "stop") && is_critical_unit(unit) {
            let mut m = unit.to_owned();
            m.append(" is a critical system service and can't be stopped here.");
            self.state.error = Some(m);
            return Action::Refused;
        }
        self.state.busy = true;
        self.state.error = None;
        Action::Start
    }

    /// Takes in a service action that ended, with a fresh listing.
    pub fn service_done(&mut self, services: Vec<Service>, err: Option<String>)
        ensures
            final(self)@ == (StartupView {
                services: views(services@),
                busy: false,
                error: opt(err),
                ..old(self)@
            }),
    {
        self.state.services = services;
        self.state.busy = false;
        self.state.error = err;
    }
}

/// The message of a service action that did not succeed.
pub fn action_error(err: &str) -> (r: String)
    ensures
        r@ == failure_of(err@, "The action didn't complete."@),
{
    failure(err, "The action didn't complete.")
}

/// A critical unit is never stopped, whatever else holds.
pub proof fn law_critical_unit_stays(s: StartupView, unit: Seq<char>)
    requires
        critical_unit(unit),
    ensures
        action_of(s, unit, "stop"@) != Action::Start,
{
}

/// A startup file that may be switched lies in the startup directory itself.
pub proof fn law_desktop_file_is_local(file: Seq<char>)
    requires
        is_desktop_file(file),
    ensures
        !file.contains('/'),
        !occurs(file, ".."@),
{
    reveal_strlit("._-+");
    if file.contains('/') {
        let k = choose|k: int| 0 <= k < file.len() && file[k] == '/';
        assert(file[k] == '/');
    }
}

// --- what is shown ----------------------------------------------------------

/// What is said of a service: its description, and whether it starts at boot.
pub open spec fn service_text(s: ServiceView) -> Seq<char> {
    if s.description.len() == 0 {
        if s.enabled {
            "starts at boot"@
        } else {
            ""@
        }
    } else {
        s.description + (if s.enabled {
            "  ·  starts at boot"@
        } else {
            ""@
        })
    }
}

impl Service {
    pub fn detail(&self) -> (r: String)
        ensures
            r@ == service_text(self@),
    {
        if to_chars(self.description.as_str()).len() == 0 {
            if self.enabled {
                "starts at boot".to_owned()
            } else {
                "".to_owned()
            }
        } else {
            let mut s = self.description.as_str().to_owned();
            s.append(
                if self.enabled {
                    "  ·  starts at boot"
                } else {
                    ""
                },
            );
            s
        }
    }
}

/// Whether a service matches what is being looked for, by unit or
/// description.
pub open spec fn service_matches(s: ServiceView, needle: Seq<char>) -> bool {
    text_matches(s.unit, needle) || text_matches(s.description, needle)
}

impl StartupState {
    /// The positions of the services that match a lowercase needle.
    pub fn filter_lower(&self, needle: &str) -> (r: Vec<usize>)
        ensures
            places(r@) == indices(
                self@.services.len(),
                |i: int| service_matches(self@.services[i], needle@),
            ),
    {
        let ghost vs = self@.services;
        let ghost p = |i: int| service_matches(vs[i], needle@);
        let mut r: Vec<usize> = Vec::new();
        let mut i: usize = 0;
        assert(places(r@) =~= indices(0, p));
        while i < self.services.len()
            invariant
                i <= self.services@.len(),
                vs == views(self.services@),
                p == (|i: int| service_matches(vs[i], needle@)),
                places(r@) == indices(i as nat, p),
            decreases self.services@.len() - i,
        {
            assert(vs[i as int] == self.services@[i as int]@);
            if matches_lower(self.services[i].unit.as_str(), needle) || matches_lower(
                self.services[i].description.as_str(),
                needle,
            ) {
                let ghost before = r@;
                r.push(i);
                assert(places(r@) =~= places(before).push(i as int));
            }
            i += 1;
        }
        r
    }

    /// The positions of the services that match a filter.
    pub fn filter(&self, filter: &str) -> (r: Vec<usize>)
        ensures
            places(r@) == indices(
                self@.services.len(),
                |i: int| service_matches(self@.services[i], lowercase(filter@)),
            ),
    {
        let needle = filter.to_lowercase();
        self.filter_lower(needle.as_str())
    }

    /// How many of the services are shown.
    pub fn services_line(&self, shown: usize) -> (r: String)
        ensures
            r@ == decimal(shown as nat) + " of "@ + decimal(self@.services.len())
                + " services · green = running"@,
    {
        let mut s = show(shown as u64);
        s.append(" of ");
        let all = show(self.services.len() as u64);
        s.append(all.as_str());
        s.append(" services · green = running");
        s
    }
}

// --- what the lists must satisfy --------------------------------------------

/// A line says a key and a value around its first equals sign, both without
/// the space around them.
pub proof fn law_pair(k: Seq<char>, v: Seq<char>)
    requires
        !k.contains('='),
    ensures
        pair_of(k + seq!['='] + v) == Some((trimmed(k), trimmed(v))),
        pair_of(k) is None,
{
    reveal_strlit("=");
    assert("="@ =~= seq!['=']);
    law_split_once(k, v, '=');
}

/// The first line with a key gives its value.
pub proof fn law_first_value(ls: Seq<Seq<char>>, line: Seq<char>, key: Seq<char>)
    ensures
        (match pair_of(line) {
            Some((k, v)) => first_value(seq![line] + ls, key) == (if k == key {
                Some(v)
            } else {
                first_value(ls, key)
            }),
            None => first_value(seq![line] + ls, key) == first_value(ls, key),
        }),
        first_value(Seq::empty(), key) is None,
{
    assert((seq![line] + ls).skip(1) =~= ls);
}

/// A program is called by its name, or else by its file, and starts at login
/// unless its file hides it or switches it off.
pub proof fn law_program(file: Seq<char>, text: Seq<char>)
    ensures
        ({
            let a = app_of(file, text);
            let ls = lines_of(text);
            &&& a.file == file
            &&& first_value(ls, "Name"@) matches Some(n) ==> a.name == n
            &&& first_value(ls, "Name"@) is None ==> a.name == file
            &&& first_value(ls, "Comment"@) matches Some(c) ==> a.comment == c
            &&& first_value(ls, "Comment"@) is None ==> a.comment.len() == 0
            &&& a.enabled <==> first_value(ls, "Hidden"@) != Some("true"@) && first_value(
                ls,
                "X-GNOME-Autostart-enabled"@,
            ) != Some("false"@)
        }),
{
}

/// A desktop file has its ending, and something ahead of it.
pub proof fn law_desktop_name(stem: Seq<char>, file: Seq<char>)
    ensures
        is_desktop_name(stem + ".desktop"@) <==> stem.len() > 0,
        !".desktop"@.is_suffix_of(file) ==> !is_desktop_name(file),
{
    law_affixes(stem, ".desktop"@, file);
}

/// A file that is read later takes the place of one of the same name, and
/// leaves the others as they were.
pub proof fn law_file_overrides(
    files: Seq<DesktopFileView>,
    f: DesktopFileView,
    file: Seq<char>,
)
    ensures
        is_desktop_name(f.file) && f.file == file ==> app_for(merged(files.push(f)), file) == Some(
            app_of(f.file, f.text),
        ),
        !(is_desktop_name(f.file) && f.file == file) ==> app_for(merged(files.push(f)), file)
            == app_for(merged(files), file),
        app_for(merged(Seq::empty()), file) is None,
{
    let t = merged(files);
    law_later_file_wins(files, file);
    law_later_file_wins(files.push(f), file);
    assert(files.push(f).drop_last() =~= files);
    assert(files.push(f).last() == f);
}

/// A program is listed for a file where the list has one, the first.
pub proof fn law_app_for(apps: Seq<StartupAppView>, a: StartupAppView, file: Seq<char>)
    ensures
        a.file == file ==> app_for(seq![a] + apps, file) == Some(a),
        a.file != file ==> app_for(seq![a] + apps, file) == app_for(apps, file),
        app_for(Seq::empty(), file) is None,
{
    assert((seq![a] + apps).skip(1) =~= apps);
}

/// The programs are by name, whatever its case; those listed are those read,
/// the user's files behind the system's.
pub proof fn law_programs_listed(system: Seq<DesktopFileView>, user: Seq<DesktopFileView>)
    ensures
        startup_of(system, user).to_multiset() == merged(system + user).to_multiset(),
        forall|i: int, j: int|
            0 <= i < j < startup_of(system, user).len() ==> !text_lt(
                lowercase((#[trigger] startup_of(system, user)[j]).name),
                lowercase((#[trigger] startup_of(system, user)[i]).name),
            ),
{
    let m = merged(system + user);
    law_ranked_sort::<StartupApp>(m);
    let t = startup_of(system, user);
    assert forall|i: int, j: int| 0 <= i < j < t.len() implies !text_lt(
        lowercase((#[trigger] t[j]).name),
        lowercase((#[trigger] t[i]).name),
    ) by {
        assert(!order_of::<StartupApp>()(t[j], t[i]));
    }
}

/// The main group and any group begin with these lines, whatever space stands
/// around them.
pub proof fn law_headings(l: Seq<char>)
    ensures
        is_main()(l) <==> trimmed(l) == "[Desktop Entry]"@,
        is_heading()(l) <==> trimmed(l).len() > 0 && trimmed(l)[0] == '[' && trimmed(l).last()
            == ']',
{
    reveal_strlit("[");
    reveal_strlit("]");
    let t = trimmed(l);
    lemma_prefix_chars(t, "["@);
    lemma_prefix_chars(t, "]"@);
    if t.len() > 0 {
        assert(t.last() == t[t.len() - 1 + 0]);
    }
}

/// A key that stands once in its group is changed where it stands; one that
/// does not is put behind the heading; no other line changes.
pub proof fn law_key_in_place(
    ls: Seq<Seq<char>>,
    start: int,
    end: int,
    key: Seq<char>,
    value: Seq<char>,
    i: int,
)
    requires
        0 <= start < end <= ls.len(),
        forall|k: int| start < k < end ==> !is_heading()(#[trigger] ls[k]),
        end < ls.len() ==> is_heading()(ls[end]),
        forall|k: int|
            start < k < end && k != i ==> !(key + "="@).is_prefix_of(#[trigger] ls[k]),
        start < i < end ==> (key + "="@).is_prefix_of(ls[i]),
    ensures
        start < i < end ==> with_key(ls, start, key, value) == ls.update(i, key + "="@ + value),
        !(start < i < end) ==> with_key(ls, start, key, value) == ls.take(start + 1) + seq![
            key + "="@ + value,
        ] + ls.skip(start + 1),
{
    let rest = ls.skip(start + 1);
    let n = end - start - 1;
    assert forall|k: int| 0 <= k < n implies !is_heading()(#[trigger] rest[k]) by {
        assert(rest[k] == ls[start + 1 + k]);
    }
    if n < rest.len() {
        assert(rest[n] == ls[end]);
    }
    lemma_lines_before_at(rest, is_heading(), n);
    let body = rest.take(n);
    let prefix = key + "="@;
    let line = key + "="@ + value;
    let w = with_key(ls, start, key, value);
    if start < i < end {
        let p = i - start - 1;
        assert forall|k: int| 0 <= k < p implies !begins(prefix)(#[trigger] body[k]) by {
            assert(body[k] == ls[start + 1 + k]);
        }
        assert(body[p] == ls[i]);
        lemma_lines_before_at(body, begins(prefix), p);
        let late = body.skip(p + 1);
        assert forall|k: int| 0 <= k < late.len() implies !prefix.is_prefix_of(
            #[trigger] late[k],
        ) by {
            assert(late[k] == ls[i + 1 + k]);
        }
        lemma_without_none(late, prefix);
        assert(w =~= ls.update(i, line));
    } else {
        assert forall|k: int| 0 <= k < body.len() implies !begins(prefix)(#[trigger] body[k]) by {
            assert(body[k] == ls[start + 1 + k]);
        }
        lemma_lines_before_at(body, begins(prefix), body.len() as int);
        assert(w =~= ls.take(start + 1) + seq![line] + ls.skip(start + 1));
    }
}

/// A text without a main group gets one in front; one with it is rewritten
/// line by line.
pub proof fn law_main_group(content: Seq<char>, key: Seq<char>, value: Seq<char>, start: int)
    ensures
        (forall|k: int| 0 <= k < lines_of(content).len() ==> !is_main()(#[trigger] lines_of(content)[k]))
            ==> key_set(content, key, value) == "[Desktop Entry]\n"@ + (key + "="@ + value) + "\n"@
            + content,
        0 <= start < lines_of(content).len() && is_main()(lines_of(content)[start]) && (forall|k: int|
            0 <= k < start ==> !is_main()(#[trigger] lines_of(content)[k])) ==> key_set(
            content,
            key,
            value,
        ) == joined(with_key(lines_of(content), start, key, value), "\n"@),
{
    let ls = lines_of(content);
    if forall|k: int| 0 <= k < ls.len() ==> !is_main()(#[trigger] ls[k]) {
        lemma_lines_before_at(ls, is_main(), ls.len() as int);
    }
    if 0 <= start < ls.len() && is_main()(ls[start]) && (forall|k: int|
        0 <= k < start ==> !is_main()(#[trigger] ls[k])) {
        lemma_lines_before_at(ls, is_main(), start);
    }
}

/// A switch writes these two keys, and starts from the user's copy of a file,
/// else the system's, else an empty entry.
pub proof fn law_switch(content: Seq<char>, other: Option<Seq<char>>)
    ensures
        switched(content, true) == key_set(
            key_set(content, "Hidden"@, "true"@),
            "X-GNOME-Autostart-enabled"@,
            "false"@,
        ),
        switched(content, false) == key_set(
            key_set(content, "Hidden"@, "false"@),
            "X-GNOME-Autostart-enabled"@,
            "true"@,
        ),
        base_content(Some(content), other) == content,
        base_content(None, Some(content)) == content,
        base_content(None, None) == "[Desktop Entry]\nType=Application\n"@,
{
}

/// These units, and every unit that begins like one of these, are critical; no
/// other is.
pub proof fn law_critical_units(u: Seq<char>)
    ensures
        critical_unit(u) <==> {
            ||| u == "gdm.service"@
            ||| u == "gdm3.service"@
            ||| u == "lightdm.service"@
            ||| u == "sddm.service"@
            ||| u == "NetworkManager.service"@
            ||| u == "dbus.service"@
            ||| u == "polkit.service"@
            ||| u == "wpa_supplicant.service"@
            ||| u == "accounts-daemon.service"@
            ||| "systemd-"@.is_prefix_of(u)
            ||| "user@"@.is_prefix_of(u)
            ||| "user-runtime-dir@"@.is_prefix_of(u)
            ||| "getty@"@.is_prefix_of(u)
            ||| "dbus"@.is_prefix_of(u)
        },
{
    let n = critical_units();
    assert(n.len() == 9);
    assert(n[0] == "gdm.service"@ && n[1] == "gdm3.service"@ && n[2] == "lightdm.service"@ && n[3]
        == "sddm.service"@ && n[4] == "NetworkManager.service"@ && n[5] == "dbus.service"@ && n[6]
        == "polkit.service"@ && n[7] == "wpa_supplicant.service"@ && n[8]
        == "accounts-daemon.service"@);
    let p = critical_prefixes();
    assert(p.len() == 5);
    assert(p[0] == "systemd-"@ && p[1] == "user@"@ && p[2] == "user-runtime-dir@"@ && p[3]
        == "getty@"@ && p[4] == "dbus"@);
}

/// A line of unit files names a unit and its state, of which one counts.
pub proof fn law_boot_line(line: Seq<char>)
    ensures
        words_of(line).len() < 2 ==> boot_row(line) is None,
        words_of(line).len() >= 2 ==> boot_row(line) == Some(
            (words_of(line)[0], words_of(line)[1] == "enabled"@),
        ),
{
}

/// The last row for a unit says whether it starts at boot; one without a row
/// does not.
pub proof fn law_boots(rows: Seq<(Seq<char>, bool)>, row: (Seq<char>, bool), unit: Seq<char>)
    ensures
        row.0 == unit ==> boots(rows.push(row), unit) == row.1,
        row.0 != unit ==> boots(rows.push(row), unit) == boots(rows, unit),
        !boots(Seq::empty(), unit),
{
    assert(rows.push(row).drop_last() =~= rows);
}

/// A line of units stands for a service exactly where its first word ends with
/// `.service` and holds no `@`. The third word says whether it is running, and
/// what follows the fourth describes it.
pub proof fn law_unit_line(line: Seq<char>)
    ensures
        ({
            let w = words_of(line);
            &&& unit_row(line) is Some <==> w.len() > 0 && ".service"@.is_suffix_of(w[0])
                && !w[0].contains('@')
            &&& unit_row(line) matches Some(s) ==> {
                &&& s.unit == w[0]
                &&& s.active <==> w.len() > 2 && w[2] == "active"@
                &&& s.protected == critical_unit(w[0])
                &&& !s.enabled
                &&& w.len() <= 4 ==> s.description.len() == 0
                &&& w.len() > 4 ==> s.description == joined(w.skip(4), " "@)
            }
        }),
{
    reveal_strlit("@");
    reveal_strlit("active");
    assert("@"@ =~= seq!['@']);
    assert("active"@.len() == 6);
    let w = words_of(line);
    if w.len() > 0 {
        lemma_find_char(w[0], "@"@);
        lemma_run_before(w[0], '@');
        if w[0].contains('@') {
            let k = choose|k: int| 0 <= k < w[0].len() && w[0][k] == '@';
            assert(run_before(w[0], '@') <= k);
        } else {
            lemma_run_before_absent(w[0], '@');
        }
    }
}

/// Running services stand ahead of the others, each kind by unit whatever its
/// case; each says whether it starts at boot.
pub proof fn law_services(files: Seq<char>, units: Seq<char>)
    ensures
        ({
            let t = services_of(files, units);
            let read = rows_of::<UnitLine>(units);
            &&& t.len() == read.len()
            &&& forall|i: int, j: int|
                0 <= i < j < t.len() ==> {
                    &&& (#[trigger] t[j]).active ==> (#[trigger] t[i]).active
                    &&& t[i].active == t[j].active ==> !text_lt(
                        lowercase(t[j].unit),
                        lowercase(t[i].unit),
                    )
                }
            &&& forall|i: int|
                #![trigger t[i]]
                0 <= i < t.len() ==> exists|k: int|
                    0 <= k < read.len() && t[i] == (ServiceView {
                        enabled: boots(rows_of::<BootLine>(files), (#[trigger] read[k]).unit),
                        ..read[k]
                    })
        }),
{
    let read = rows_of::<UnitLine>(units);
    let boot = rows_of::<BootLine>(files);
    let m = read.map_values(|s: ServiceView| service_of(s, boot));
    let t = services_of(files, units);
    law_ranked_sort::<Service>(m);
    law_sort_same_items(m, order_of::<Service>());
    assert forall|i: int, j: int| 0 <= i < j < t.len() implies {
        &&& (#[trigger] t[j]).active ==> (#[trigger] t[i]).active
        &&& t[i].active == t[j].active ==> !text_lt(lowercase(t[j].unit), lowercase(t[i].unit))
    } by {
        assert(!order_of::<Service>()(t[j], t[i]));
    }
    assert forall|i: int|
        #![trigger t[i]]
        0 <= i < t.len() implies exists|k: int|
        0 <= k < read.len() && t[i] == (ServiceView {
            enabled: boots(boot, (#[trigger] read[k]).unit),
            ..read[k]
        }) by {
        assert(m.contains(t[i]));
        let k = choose|k: int| 0 <= k < m.len() && m[k] == t[i];
        assert(t[i] == service_of(read[k], boot));
    }
}

/// Which files may be switched and which texts name a unit.
pub proof fn law_startup_names(s: Seq<char>)
    ensures
        is_desktop_file(s) <==> 0 < s.len() && s.len() < 200 && (forall|i: int|
            0 <= i < s.len() ==> ('0' <= #[trigger] s[i] && s[i] <= '9') || ('a' <= s[i] && s[i]
                <= 'z') || ('A' <= s[i] && s[i] <= 'Z') || s[i] == '.' || s[i] == '_' || s[i] == '-'
                || s[i] == '+') && ".desktop"@.is_suffix_of(s) && !occurs(s, ".."@),
        is_unit(s) <==> 0 < s.len() && s.len() < 200 && forall|i: int|
            0 <= i < s.len() ==> ('0' <= #[trigger] s[i] && s[i] <= '9') || ('a' <= s[i] && s[i]
                <= 'z') || ('A' <= s[i] && s[i] <= 'Z') || s[i] == '.' || s[i] == '_' || s[i] == '-'
                || s[i] == '@' || s[i] == ':' || s[i] == '\\',
{
    reveal_strlit("._-+");
    reveal_strlit("._-@:\\");
    let x = "._-+"@;
    let y = "._-@:\\"@;
    assert(x =~= seq!['.', '_', '-', '+']);
    assert(y =~= seq!['.', '_', '-', '@', ':', '\\']);
    law_plain(s, x, 200);
    law_plain(s, y, 200);
    assert forall|c: char| x.contains(c) <==> c == '.' || c == '_' || c == '-' || c == '+' by {
        assert(x[0] == '.' && x[1] == '_' && x[2] == '-' && x[3] == '+');
    }
    assert forall|c: char| y.contains(c) <==> c == '.' || c == '_' || c == '-' || c == '@' || c
        == ':' || c == '\\' by {
        assert(y[0] == '.' && y[1] == '_' && y[2] == '-' && y[3] == '@' && y[4] == ':' && y[5]
            == '\\');
    }
}

/// An action starts unless something runs, the unit's name is none, or it
/// would stop a critical unit.
pub proof fn law_action(s: StartupView, unit: Seq<char>, action: Seq<char>)
    ensures
        action_of(s, unit, action) is Idle <==> s.busy || !is_unit(unit),
        action_of(s, unit, action) is Refused <==> !s.busy && is_unit(unit) && action == "stop"@
            && critical_unit(unit),
        action_of(s, unit, action) is Start <==> !s.busy && is_unit(unit) && !(action == "stop"@
            && critical_unit(unit)),
{
}

/// What is said of a service, and by what it is found.
pub proof fn law_service_shown(s: ServiceView, needle: Seq<char>)
    ensures
        s.description.len() > 0 && !s.enabled ==> service_text(s) == s.description,
        s.description.len() > 0 && s.enabled ==> service_text(s) == s.description
            + "  ·  starts at boot"@,
        s.description.len() == 0 && s.enabled ==> service_text(s) == "starts at boot"@,
        s.description.len() == 0 && !s.enabled ==> service_text(s).len() == 0,
        service_matches(s, needle) <==> needle.len() == 0 || occurs(lowercase(s.unit), needle)
            || occurs(lowercase(s.description), needle),
{
    reveal_strlit("");
    assert(s.description + ""@ =~= s.description);
}

/// What is said of a program, a file, a service and the tab is said of the fields.
pub proof fn law_fields(
    app: StartupApp,
    file: DesktopFile,
    service: Service,
    state: StartupState,
    tab: StartupMgr,
)
    ensures
        app@.name == app.name@,
        app@.file == app.file@,
        app@.comment == app.comment@,
        app@.enabled == app.enabled,
        file@.file == file.file@,
        file@.text == file.text@,
        service@.unit == service.unit@,
        service@.description == service.description@,
        service@.active == service.active,
        service@.enabled == service.enabled,
        service@.protected == service.protected,
        state@.loading == state.loading,
        state@.loaded == state.loaded,
        state@.apps == views(state.apps@),
        state@.services == views(state.services@),
        state@.busy == state.busy,
        state@.error == opt(state.error),
        tab@ == tab.state@,
{
}

/// A listing is read line by line: how units start.
pub proof fn law_boot_lines(line: Seq<char>, rest: Seq<char>)
    requires
        !line.contains('\n'),
        !seq!['\r'].is_suffix_of(line),
    ensures
        boot_row(line) matches Some(row) ==> rows_of::<BootLine>(line + seq!['\n'] + rest) == seq![
            row,
        ] + rows_of::<BootLine>(rest),
        boot_row(line) is None ==> rows_of::<BootLine>(line + seq!['\n'] + rest) == rows_of::<BootLine>(
            rest,
        ),
        rows_of::<BootLine>(Seq::empty()).len() == 0,
{
    law_rows::<BootLine>(line, rest);
}

/// A listing is read line by line: the units.
pub proof fn law_unit_lines(line: Seq<char>, rest: Seq<char>)
    requires
        !line.contains('\n'),
        !seq!['\r'].is_suffix_of(line),
    ensures
        unit_row(line) matches Some(row) ==> rows_of::<UnitLine>(line + seq!['\n'] + rest) == seq![
            row,
        ] + rows_of::<UnitLine>(rest),
        unit_row(line) is None ==> rows_of::<UnitLine>(line + seq!['\n'] + rest) == rows_of::<UnitLine>(
            rest,
        ),
        rows_of::<UnitLine>(Seq::empty()).len() == 0,
{
    law_rows::<UnitLine>(line, rest);
}

/// At first nothing is listed, running or said.
pub proof fn law_at_first()
    ensures
        ({
            let s = StartupView::initial();
            &&& !s.loading && !s.loaded && !s.busy && s.error is None
            &&& s.apps.len() == 0 && s.services.len() == 0
        }),
{
}

} // verus!
