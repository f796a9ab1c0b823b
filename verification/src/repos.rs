//! Package sources: listing, adding and removing them.

use vstd::prelude::*;
use vstd::string::*;

use crate::log::{failure, failure_of, newest_lines, push_log};
use crate::order::{
    in_order, law_ranked_sort, law_sort_keeps_distinct, law_sort_same_items, law_text_order,
    order_of, sorted_by, stable_sort, string_less, text_lt, Ranked,
};
use crate::text::{
    blank, contains, ends_with, field, field_of, find_in, is_alnum, is_plain, is_space, is_text,
    kept, last_of, law_affixes, law_kept_in_order, law_kept_items, law_last_of, law_plain,
    law_split_once, law_trimmed, lemma_find_char, lemma_find_first, lemma_find_in, lemma_first_word,
    lemma_kept_ends, lemma_kept_step, lemma_plain_is_inert, lemma_prefix_chars,
    lemma_run_before_absent, lemma_run_before_append, lemma_views_push, lines, lines_of, lowercase,
    occurs, opt, plain, read_all, reader, rfind, rows, rows_of, same_text, shell_inert, spaceless,
    split, split_by, split_once, split_once_at, starts_with, strip_prefix, to_chars, to_text, trim,
    trimmed, views, without_prefix, words, words_of, LineReader,
};

verus! {

/// A package source.
#[derive(Clone)]
pub struct Repo {
    /// Address and suite.
    pub label: String,
    /// The file it stands in.
    pub file: String,
    /// The archive that it is, where it is a personal one.
    pub ppa_spec: Option<String>,
    /// A base repository: shown, never removed.
    pub protected: bool,
}

#[verifier::ext_equal]
pub struct RepoView {
    pub label: Seq<char>,
    pub file: Seq<char>,
    pub ppa_spec: Option<Seq<char>>,
    pub protected: bool,
}

impl View for Repo {
    type V = RepoView;

    open spec fn view(&self) -> RepoView {
        RepoView {
            label: self.label@,
            file: self.file@,
            ppa_spec: opt(self.ppa_spec),
            protected: self.protected,
        }
    }
}

/// What tells one source from another.
pub open spec fn key_of(file: Seq<char>, label: Seq<char>) -> Seq<char> {
    file + "|"@ + label
}

fn make_key(file: &str, label: &str) -> (r: String)
    ensures
        r@ == key_of(file@, label@),
{
    let mut k = file.to_owned();
    k.append("|");
    k.append(label);
    k
}

impl Repo {
    pub fn key(&self) -> (r: String)
        ensures
            r@ == key_of(self@.file, self@.label),
    {
        make_key(self.file.as_str(), self.label.as_str())
    }
}

// --- reading source files ---------------------------------------------------

/// How many words there are up to the first that closes a bracket, itself
/// included, where one does.
pub open spec fn closed_after(w: Seq<Seq<char>>) -> Option<nat>
    decreases w.len(),
{
    if w.len() == 0 {
        None
    } else if "]"@.is_suffix_of(w[0]) {
        Some(1)
    } else {
        match closed_after(w.skip(1)) {
            Some(n) => Some(n + 1),
            None => None,
        }
    }
}

/// How many words a group of options in front takes up, such as
/// `[arch=amd64 lang=en]`.
pub open spec fn options_len(w: Seq<Seq<char>>) -> nat {
    match closed_after(w) {
        Some(n) => if "["@.is_prefix_of(w[0]) {
            n
        } else {
            0
        },
        None => 0,
    }
}

/// Whether a word opens or closes a bracket.
pub open spec fn is_bracketed(word: Seq<char>) -> bool {
    "["@.is_prefix_of(word) || "]"@.is_suffix_of(word)
}

/// Reads a word that is no part of an option by itself.
pub struct Argument;

impl LineReader for Argument {
    type Row = String;

    open spec fn row_of(word: Seq<char>) -> Option<Seq<char>> {
        if is_bracketed(word) {
            None
        } else {
            Some(word)
        }
    }

    fn read(word: &[char]) -> (r: Option<String>) {
        if starts_with(word, "[") || ends_with(word, "]") {
            None
        } else {
            Some(to_text(word))
        }
    }
}

/// The words behind the group of options in front, without any that opens or
/// closes a bracket of its own.
pub open spec fn arguments_of(w: Seq<Seq<char>>) -> Seq<Seq<char>> {
    kept(w.skip(options_len(w) as int), reader::<Argument>())
}

fn find_options(w: &[&[char]]) -> (r: usize)
    ensures
        r <= w@.len(),
        r == options_len(views(w@)),
{
    let ghost vs = views(w@);
    if w.len() == 0 {
        return 0;
    }
    assert(vs[0] == w@[0]@);
    if !starts_with(w[0], "[") {
        return 0;
    }
    let mut i: usize = 0;
    assert(vs.skip(0) =~= vs);
    while i < w.len()
        invariant
            i <= w@.len(),
            w@.len() > 0,
            vs == views(w@),
            "["@.is_prefix_of(vs[0]),
            closed_after(vs) == (match closed_after(vs.skip(i as int)) {
                Some(n) => Some((n + i) as nat),
                None => None,
            }),
        decreases w@.len() - i,
    {
        assert(vs.skip(i as int)[0] == w@[i as int]@);
        if ends_with(w[i], "]") {
            return i + 1;
        }
        assert(vs.skip(i as int).skip(1) =~= vs.skip(i as int + 1));
        i += 1;
    }
    0
}

/// However many options stand in the brackets, what follows them is what is
/// read.
pub proof fn law_options_are_skipped(options: Seq<Seq<char>>, rest: Seq<Seq<char>>)
    requires
        options.len() > 0,
        "["@.is_prefix_of(options[0]),
        "]"@.is_suffix_of(options.last()),
        forall|i: int| 0 <= i < options.len() - 1 ==> !"]"@.is_suffix_of(#[trigger] options[i]),
    ensures
        arguments_of(options + rest) == kept(rest, reader::<Argument>()),
        (forall|i: int| 0 <= i < rest.len() ==> !is_bracketed(#[trigger] rest[i]))
            ==> arguments_of(options + rest) == rest,
{
    assert((options + rest)[0] == options[0]);
    lemma_closed_after(options, rest);
    assert((options + rest).skip(options.len() as int) =~= rest);
    if forall|i: int| 0 <= i < rest.len() ==> !is_bracketed(#[trigger] rest[i]) {
        lemma_all_arguments(rest);
    }
}

proof fn lemma_closed_after(options: Seq<Seq<char>>, rest: Seq<Seq<char>>)
    requires
        options.len() > 0,
        "]"@.is_suffix_of(options.last()),
        forall|i: int| 0 <= i < options.len() - 1 ==> !"]"@.is_suffix_of(#[trigger] options[i]),
    ensures
        closed_after(options + rest) == Some(options.len()),
    decreases options.len(),
{
    let w = options + rest;
    assert(w[0] == options[0]);
    if options.len() > 1 {
        let later = options.skip(1);
        assert(w.skip(1) =~= later + rest);
        assert forall|i: int| 0 <= i < later.len() - 1 implies !"]"@.is_suffix_of(
            #[trigger] later[i],
        ) by {
            assert(later[i] == options[i + 1]);
        }
        lemma_closed_after(later, rest);
    }
}

proof fn lemma_all_arguments(w: Seq<Seq<char>>)
    requires
        forall|i: int| 0 <= i < w.len() ==> !is_bracketed(#[trigger] w[i]),
    ensures
        kept(w, reader::<Argument>()) == w,
    decreases w.len(),
{
    if w.len() > 0 {
        let rest = w.skip(1);
        assert forall|i: int| 0 <= i < rest.len() implies !is_bracketed(#[trigger] rest[i]) by {
            assert(rest[i] == w[i + 1]);
        }
        lemma_all_arguments(rest);
        assert(seq![w[0]] + rest =~= w);
    }
}

/// Address and suite, or the address alone.
pub open spec fn label_of(uri: Seq<char>, suite: Seq<char>) -> Seq<char> {
    trimmed(uri + " "@ + suite)
}

fn make_label(uri: &str, suite: &str) -> (r: String)
    ensures
        r@ == label_of(uri@, suite@),
{
    let mut l = uri.to_owned();
    l.append(" ");
    l.append(suite);
    let c = to_chars(l.as_str());
    to_text(trim(&c))
}

/// The source that a one-line entry stands for: `deb`, options in brackets, an
/// address and a suite.
pub open spec fn one_line_of(line: Seq<char>) -> Option<Seq<char>> {
    let w = words_of(line);
    if w.len() == 0 || w[0] != "deb"@ {
        None
    } else {
        let args = arguments_of(w.skip(1));
        if args.len() == 0 {
            None
        } else {
            Some(label_of(args[0], field_of(args, 1)))
        }
    }
}

fn one_line(line: &[char]) -> (r: Option<String>)
    ensures
        opt(r) == one_line_of(line@),
{
    let w = words(line);
    if w.len() == 0 {
        return None;
    }
    assert(views(w@)[0] == w@[0]@);
    if !is_text(w[0], "deb") {
        return None;
    }
    let n = w.len();
    let behind = vstd::slice::slice_subrange(&w, 1, n);
    assert(views(behind@) =~= views(w@).skip(1));
    let at = find_options(behind);
    let rest = vstd::slice::slice_subrange(behind, at, n - 1);
    assert(views(rest@) =~= views(behind@).skip(at as int));
    let args = read_all::<Argument>(rest);
    if args.len() == 0 {
        return None;
    }
    assert(views(args@)[0] == args@[0]@);
    let uri = args[0].as_str();
    let suite = if args.len() > 1 {
        assert(views(args@)[1] == args@[1]@);
        args[1].as_str()
    } else {
        ""
    };
    proof {
        reveal_strlit("");
        assert(""@ =~= Seq::<char>::empty());
    }
    Some(make_label(uri, suite))
}

pub fn parse_one_line(line: &str) -> (r: Option<String>)
    ensures
        opt(r) == one_line_of(line@),
{
    one_line(&to_chars(line))
}

/// Reads a line of a file of one-line entries; blank lines and comments stand
/// for none.
pub struct EntryLine;

impl LineReader for EntryLine {
    type Row = String;

    open spec fn row_of(line: Seq<char>) -> Option<Seq<char>> {
        let l = trimmed(line);
        if l.len() == 0 || "#"@.is_prefix_of(l) {
            None
        } else {
            one_line_of(l)
        }
    }

    fn read(line: &[char]) -> (r: Option<String>) {
        let l = trim(line);
        if l.len() == 0 || starts_with(l, "#") {
            None
        } else {
            one_line(l)
        }
    }
}

/// The value of the last field of this name, whatever its case, in some lines
/// of `name: value`.
pub open spec fn last_value(ls: Seq<Seq<char>>, name: Seq<char>) -> Option<Seq<char>>
    decreases ls.len(),
{
    if ls.len() == 0 {
        None
    } else {
        match split_once_at(ls.last(), ":"@) {
            Some((k, v)) => if lowercase(trimmed(k)) == name {
                Some(v)
            } else {
                last_value(ls.drop_last(), name)
            },
            None => last_value(ls.drop_last(), name),
        }
    }
}

fn find_value<'a>(ls: &Vec<&'a [char]>, name: &str) -> (r: Option<&'a [char]>)
    ensures
        opt(r) == last_value(views(ls@), name@),
{
    let ghost vs = views(ls@);
    let mut i: usize = ls.len();
    assert(vs.take(i as int) =~= vs);
    while i > 0
        invariant
            i <= ls@.len(),
            vs == views(ls@),
            last_value(vs, name@) == last_value(vs.take(i as int), name@),
        decreases i,
    {
        assert(vs.take(i as int).last() == ls@[i - 1]@);
        assert(vs.take(i as int).drop_last() =~= vs.take(i as int - 1));
        if let Some((k, v)) = split_once(ls[i - 1], ":") {
            let key = to_text(trim(k)).as_str().to_lowercase();
            if same_text(key.as_str(), name) {
                return Some(v);
            }
        }
        i -= 1;
    }
    None
}

/// The source that a block of fields stands for, unless it is switched off or
/// names no address.
pub open spec fn block_of(block: Seq<char>) -> Option<Seq<char>> {
    let ls = lines_of(block);
    let enabled = match last_value(ls, "enabled"@) {
        Some(v) => lowercase(trimmed(v)) != "no"@,
        None => true,
    };
    let uris = match last_value(ls, "uris"@) {
        Some(v) => words_of(v),
        None => Seq::empty(),
    };
    let suites = match last_value(ls, "suites"@) {
        Some(v) => words_of(v),
        None => Seq::empty(),
    };
    if enabled && uris.len() > 0 {
        Some(label_of(uris[0], field_of(suites, 0)))
    } else {
        None
    }
}

/// Reads a block of fields.
pub struct Block;

impl LineReader for Block {
    type Row = String;

    open spec fn row_of(block: Seq<char>) -> Option<Seq<char>> {
        block_of(block)
    }

    fn read(block: &[char]) -> (r: Option<String>) {
        let ls = lines(block);
        if let Some(v) = find_value(&ls, "enabled") {
            let lower = to_text(trim(v)).as_str().to_lowercase();
            if same_text(lower.as_str(), "no") {
                return None;
            }
        }
        let uris = match find_value(&ls, "uris") {
            Some(v) => words(v),
            None => Vec::new(),
        };
        let suites = match find_value(&ls, "suites") {
            Some(v) => words(v),
            None => Vec::new(),
        };
        if uris.len() == 0 {
            assert(views(uris@) =~= Seq::<Seq<char>>::empty());
            return None;
        }
        assert(suites@.len() == 0 ==> views(suites@) =~= Seq::<Seq<char>>::empty());
        assert(views(uris@)[0] == uris@[0]@);
        let uri = to_text(uris[0]);
        let suite = to_text(field(&suites, 0));
        Some(make_label(uri.as_str(), suite.as_str()))
    }
}

/// The sources of a file of blocks, which empty lines separate.
pub open spec fn deb822_of(text: Seq<char>) -> Seq<Seq<char>> {
    kept(split_by(text, "\n\n"@), reader::<Block>())
}

pub fn parse_deb822(text: &str) -> (r: Vec<String>)
    ensures
        views(r@) == deb822_of(text@),
{
    proof {
        reveal_strlit("\n\n");
    }
    let c = to_chars(text);
    let blocks = split(&c, "\n\n");
    read_all::<Block>(&blocks)
}

// --- naming -----------------------------------------------------------------

/// What follows `mark` in `s` up to the next one.
pub open spec fn after(s: Seq<char>, mark: Seq<char>) -> Option<Seq<char>> {
    let parts = split_by(s, mark);
    if parts.len() > 1 {
        Some(parts[1])
    } else {
        None
    }
}

fn part_after<'a>(s: &'a [char], mark: &str) -> (r: Option<&'a [char]>)
    requires
        mark@.len() > 0,
    ensures
        opt(r) == after(s@, mark@),
{
    let parts = split(s, mark);
    if parts.len() > 1 {
        assert(views(parts@)[1] == parts@[1]@);
        Some(parts[1])
    } else {
        None
    }
}

/// The personal archive whose packages a source offers, drawn from its
/// address.
pub open spec fn ppa_of(lower: Seq<char>, label: Seq<char>) -> Option<Seq<char>> {
    if !occurs(lower, "ppa.launchpad"@) || words_of(label).len() == 0 {
        None
    } else {
        let uri = words_of(label)[0];
        let path = match after(uri, "launchpadcontent.net/"@) {
            Some(p) => Some(p),
            None => after(uri, "launchpad.net/"@),
        };
        match path {
            None => None,
            Some(p) => {
                let parts = split_by(p, "/"@);
                if parts.len() < 2 || parts[0].len() == 0 || parts[1].len() == 0 {
                    None
                } else {
                    Some("ppa:"@ + parts[0] + "/"@ + parts[1])
                }
            },
        }
    }
}

/// As `ppa_from`, given the label's lowercase form too.
pub fn ppa_in(lower: &str, label: &str) -> (r: Option<String>)
    ensures
        opt(r) == ppa_of(lower@, label@),
{
    let lc = to_chars(lower);
    let c = to_chars(label);
    let w = words(&c);
    if !contains(&lc, "ppa.launchpad") || w.len() == 0 {
        return None;
    }
    proof {
        reveal_strlit("launchpadcontent.net/");
        reveal_strlit("launchpad.net/");
        reveal_strlit("/");
    }
    assert(views(w@)[0] == w@[0]@);
    let path = match part_after(w[0], "launchpadcontent.net/") {
        Some(p) => Some(p),
        None => part_after(w[0], "launchpad.net/"),
    };
    match path {
        None => None,
        Some(p) => {
            let parts = split(p, "/");
            if parts.len() < 2 {
                return None;
            }
            assert(views(parts@)[0] == parts@[0]@);
            assert(views(parts@)[1] == parts@[1]@);
            if parts[0].len() == 0 || parts[1].len() == 0 {
                return None;
            }
            let mut s = "ppa:".to_owned();
            let user = to_text(parts[0]);
            let name = to_text(parts[1]);
            s.append(user.as_str());
            s.append("/");
            s.append(name.as_str());
            Some(s)
        },
    }
}

pub fn ppa_from(label: &str) -> (r: Option<String>)
    ensures
        opt(r) == ppa_of(lowercase(label@), label@),
{
    let lower = label.to_lowercase();
    ppa_in(lower.as_str(), label)
}

/// The part of a path after its last slash.
pub open spec fn base_of(path: Seq<char>) -> Seq<char> {
    match last_of(path, '/') {
        Some(i) => path.skip(i + 1),
        None => path,
    }
}

pub fn basename(path: &str) -> (r: String)
    ensures
        r@ == base_of(path@),
{
    let c = to_chars(path);
    let n = c.len();
    match rfind(&c, '/') {
        Some(i) => {
            let b = vstd::slice::slice_subrange(&c, i + 1, n);
            assert(b@ =~= path@.skip(i as int + 1));
            to_text(b)
        },
        None => path.to_owned(),
    }
}

/// A name of a user or an archive: letters, digits and `.-_`, fewer than 100.
pub open spec fn is_ppa_part(s: Seq<char>) -> bool {
    is_plain(s, ".-_"@, 100)
}

/// `ppa:user/name`.
pub open spec fn is_ppa(s: Seq<char>) -> bool {
    match without_prefix(s, "ppa:"@) {
        None => false,
        Some(rest) => match split_once_at(rest, "/"@) {
            None => false,
            Some((user, name)) => is_ppa_part(user) && is_ppa_part(name),
        },
    }
}

pub fn valid_ppa(s: &str) -> (r: bool)
    ensures
        r == is_ppa(s@),
{
    let c = to_chars(s);
    match strip_prefix(&c, "ppa:") {
        None => false,
        Some(rest) => match split_once(rest, "/") {
            None => false,
            Some((user, name)) => plain(user, ".-_", 100) && plain(name, ".-_", 100),
        },
    }
}

/// The name of a source file that may be deleted: one path component of plain
/// characters with a known ending.
pub open spec fn is_source_file(s: Seq<char>) -> bool {
    &&& is_plain(s, "._-+:"@, 200)
    &&& !occurs(s, ".."@)
    &&& ".list"@.is_suffix_of(s) || ".sources"@.is_suffix_of(s)
}

pub fn valid_source_file(file: &str) -> (r: bool)
    ensures
        r == is_source_file(file@),
{
    let c = to_chars(file);
    plain(&c, "._-+:", 200) && !contains(&c, "..") && (ends_with(&c, ".list") || ends_with(
        &c,
        ".sources",
    ))
}

/// Two parts with a slash between them, and anything behind a further slash.
proof fn lemma_two_parts(user: Seq<char>, name: Seq<char>, rest: Seq<char>)
    requires
        !user.contains('/'),
        !name.contains('/'),
    ensures
        split_once_at(user + "/"@ + name, "/"@) == Some((user, name)),
        split_by(user + "/"@ + name + "/"@ + rest, "/"@).len() >= 2,
        split_by(user + "/"@ + name + "/"@ + rest, "/"@)[0] == user,
        split_by(user + "/"@ + name + "/"@ + rest, "/"@)[1] == name,
{
    reveal_strlit("/");
    let short = user + "/"@ + name;
    let tail = name + "/"@ + rest;
    let long = user + "/"@ + name + "/"@ + rest;
    assert(short =~= user + ("/"@ + name));
    assert(long =~= user + ("/"@ + tail));
    assert(tail =~= name + ("/"@ + rest));
    lemma_find_char(short, "/"@);
    lemma_find_char(long, "/"@);
    lemma_find_char(tail, "/"@);
    lemma_run_before_absent(user, '/');
    lemma_run_before_absent(name, '/');
    lemma_run_before_append(user, "/"@ + name, '/');
    lemma_run_before_append(user, "/"@ + tail, '/');
    lemma_run_before_append(name, "/"@ + rest, '/');
    assert(short.take(user.len() as int) =~= user);
    assert(short.skip(user.len() as int + 1) =~= name);
    assert(long.take(user.len() as int) =~= user);
    assert(long.skip(user.len() as int + 1) =~= tail);
    assert(tail.take(name.len() as int) =~= name);
    assert(split_by(long, "/"@) == seq![user] + split_by(tail, "/"@));
    assert(split_by(tail, "/"@)[0] == name);
}

/// Whitespace and slashes stand in no name of a user or an archive.
proof fn lemma_ppa_part(s: Seq<char>)
    requires
        is_ppa_part(s),
    ensures
        !s.contains('/'),
        forall|i: int| 0 <= i < s.len() ==> !is_space(#[trigger] s[i]),
{
    reveal_strlit(".-_");
    let extra = ".-_"@;
    assert(extra =~= seq!['.', '-', '_']);
    assert forall|i: int| 0 <= i < s.len() implies s[i] != '/' && !is_space(#[trigger] s[i]) by {
        if !is_alnum(s[i]) {
            let k = choose|k: int| 0 <= k < extra.len() && extra[k] == s[i];
            assert(extra[k] == '.' || extra[k] == '-' || extra[k] == '_');
        }
    }
}

/// Where an archive's host stands in `user/name/ubuntu`, one of the two names
/// ends with it.
proof fn lemma_host_once(user: Seq<char>, name: Seq<char>)
    requires
        !user.contains('/'),
        !name.contains('/'),
        !"launchpadcontent.net"@.is_suffix_of(user),
        !"launchpadcontent.net"@.is_suffix_of(name),
    ensures
        find_in(user + "/"@ + name + "/"@ + "ubuntu"@, "launchpadcontent.net/"@) is None,
{
    reveal_strlit("launchpadcontent.net/");
    reveal_strlit("launchpadcontent.net");
    reveal_strlit("ubuntu");
    reveal_strlit("/");
    let mark = "launchpadcontent.net/"@;
    let host = "launchpadcontent.net"@;
    assert(mark =~= host.push('/'));
    let p = user + "/"@ + name + "/"@ + "ubuntu"@;
    lemma_find_in(p, mark);
    if let Some(i) = find_in(p, mark) {
        let at = i + 20;
        assert(p.subrange(i, i + 21) == mark);
        assert forall|k: int| 0 <= k < 21 implies p[i + k] == #[trigger] mark[k] by {
            assert(p.subrange(i, i + 21)[k] == p[i + k]);
        }
        assert(p[i + 20] == mark[20]);
        assert forall|k: int| i <= k < at implies #[trigger] p[k] != '/' by {
            assert(p[i + (k - i)] == mark[k - i]);
            assert(mark[k - i] == host[k - i]);
        }
        let first = user.len() as int;
        let second = first + 1 + name.len();
        assert(p[first] == '/' && p[second] == '/');
        assert(at == first || at == second) by {
            if at < first {
                assert(user[at] == p[at]);
            } else if first < at < second {
                assert(name[at - first - 1] == p[at]);
            } else if at > second {
                assert("ubuntu"@[at - second - 1] == p[at]);
            }
        }
        if at == first {
            assert forall|k: int| 0 <= k < 20 implies #[trigger] host[k] == user[first - 20 + k] by {
                assert(p[i + k] == mark[k]);
            }
            assert(host =~= user.subrange(first - 20, first));
        } else {
            assert(i > first);
            let n = name.len() as int;
            assert forall|k: int| 0 <= k < 20 implies #[trigger] host[k] == name[n - 20 + k] by {
                assert(p[i + k] == mark[k]);
            }
            assert(host =~= name.subrange(n - 20, n));
        }
    }
}

/// The address of an archive leads back to the archive it was made for, in the
/// form in which one is added or removed. No name of the two may end with the
/// host's name: there the address reads as another one's.
pub proof fn law_ppa_round_trip(
    user: Seq<char>,
    name: Seq<char>,
    suite: Seq<char>,
    lower: Seq<char>,
)
    requires
        is_ppa_part(user),
        is_ppa_part(name),
        !"launchpadcontent.net"@.is_suffix_of(user),
        !"launchpadcontent.net"@.is_suffix_of(name),
        occurs(lower, "ppa.launchpad"@),
    ensures
        ({
            let uri = "https://ppa.launchpadcontent.net/"@ + user + "/"@ + name + "/"@ + "ubuntu"@;
            ppa_of(lower, label_of(uri, suite)) == Some("ppa:"@ + user + "/"@ + name)
        }),
        is_ppa("ppa:"@ + user + "/"@ + name),
{
    reveal_strlit("https://ppa.launchpadcontent.net/");
    reveal_strlit("launchpadcontent.net/");
    reveal_strlit("ubuntu");
    reveal_strlit("/");
    reveal_strlit("ppa:");
    reveal_strlit(" ");
    let head = "https://ppa.launchpadcontent.net/"@;
    let mark = "launchpadcontent.net/"@;
    let uri = head + user + "/"@ + name + "/"@ + "ubuntu"@;
    let p = user + "/"@ + name + "/"@ + "ubuntu"@;
    lemma_ppa_part(user);
    lemma_ppa_part(name);
    assert(uri =~= head + p);

    assert forall|i: int| 0 <= i < uri.len() implies !is_space(#[trigger] uri[i]) by {
        if i < head.len() {
            assert(uri[i] == head[i]);
        } else {
            let k = i - head.len();
            assert(uri[i] == p[k]);
            if k < user.len() {
                assert(p[k] == user[k]);
            } else if user.len() < k < user.len() + 1 + name.len() {
                assert(p[k] == name[k - user.len() - 1]);
            } else if k > user.len() + 1 + name.len() {
                assert(p[k] == "ubuntu"@[k - user.len() - 2 - name.len()]);
            }
        }
    }
    assert(uri + " "@ + suite =~= uri + (" "@ + suite));
    lemma_first_word(uri, " "@ + suite);

    assert(uri.skip(12).subrange(0, 21) =~= mark);
    assert forall|i: int| 0 <= i < 12 implies !mark.is_prefix_of(#[trigger] uri.skip(i)) by {
        if mark.is_prefix_of(uri.skip(i)) {
            assert(uri.skip(i).subrange(0, 21)[0] == mark[0]);
            assert(uri[i] == head[i]);
        }
    }
    lemma_find_first(uri, mark, 12);
    assert(uri.skip(33) =~= p);
    lemma_host_once(user, name);
    assert(split_by(p, mark) =~= seq![p]);
    assert(after(uri, mark) == Some(p));
    lemma_two_parts(user, name, "ubuntu"@);

    let spec = "ppa:"@ + user + "/"@ + name;
    assert("ppa:"@ =~= spec.subrange(0, 4));
    assert(spec.skip(4) =~= user + "/"@ + name);
}

// --- listing ----------------------------------------------------------------

/// A path, sorted by its text.
pub struct PathName {
    pub path: String,
}

impl View for PathName {
    type V = Seq<char>;

    open spec fn view(&self) -> Seq<char> {
        self.path@
    }
}

impl Ranked for PathName {
    open spec fn precedes(a: Seq<char>, b: Seq<char>) -> bool {
        text_lt(a, b)
    }

    fn before(&self, other: &Self) -> (r: bool) {
        string_less(self.path.as_str(), other.path.as_str())
    }

    proof fn law_precedes(a: Seq<char>, b: Seq<char>, c: Seq<char>) {
        law_text_order(a, b, c);
        law_text_order(b, a, c);
    }
}

/// The paths that end like this, sorted.
pub open spec fn matching(paths: Seq<Seq<char>>, ext: Seq<char>) -> Seq<Seq<char>> {
    sorted_by(
        kept(
            paths,
            |p: Seq<char>|
                if ext.is_suffix_of(p) {
                    Some(p)
                } else {
                    None
                },
        ),
        order_of::<PathName>(),
    )
}

fn unwrapped(names: Vec<PathName>) -> (r: Vec<String>)
    ensures
        views(r@) == views(names@),
{
    let mut out: Vec<String> = Vec::new();
    let ghost all = views(names@);
    assert(views(out@) =~= all.take(0));
    for n in it: names
        invariant
            it.seq() == names@,
            all == views(names@),
            views(out@) == all.take(it.index() as int),
    {
        assert(all[it.index() as int] == n@);
        let ghost before = out@;
        out.push(n.path);
        assert(views(out@) =~= views(before).push(n@));
        assert(views(out@) =~= all.take(it.index() as int + 1));
    }
    assert(all.take(all.len() as int) =~= all);
    out
}

/// The paths of a directory that end like this, sorted.
pub fn glob_dir(entries: &[String], ext: &str) -> (r: Vec<String>)
    ensures
        views(r@) == matching(views(entries@), ext@),
{
    broadcast use lemma_views_push;

    let ghost vs = views(entries@);
    let ghost f = |p: Seq<char>|
        if ext@.is_suffix_of(p) {
            Some(p)
        } else {
            None
        };
    let mut found: Vec<PathName> = Vec::new();
    let mut i: usize = 0;
    proof {
        lemma_kept_ends(views(found@), vs, f);
        assert(views(found@) =~= Seq::<Seq<char>>::empty());
    }
    while i < entries.len()
        invariant
            i <= entries@.len(),
            vs == views(entries@),
            f == (|p: Seq<char>|
                if ext@.is_suffix_of(p) {
                    Some(p)
                } else {
                    None
                }),
            views(found@) + kept(vs.skip(i as int), f) == kept(vs, f),
        decreases entries@.len() - i,
    {
        proof {
            lemma_kept_step(views(found@), vs, i as int, f);
        }
        let c = to_chars(entries[i].as_str());
        assert(vs[i as int] == c@);
        if ends_with(&c, ext) {
            found.push(PathName { path: entries[i].clone() });
        }
        i += 1;
    }
    proof {
        lemma_kept_ends(views(found@), vs, f);
    }
    unwrapped(stable_sort(found))
}

/// The files of one-line entries: the main one, then those of the directory.
pub open spec fn one_line_paths(entries: Seq<Seq<char>>) -> Seq<Seq<char>> {
    seq!["/etc/apt/sources.list"@] + matching(entries, ".list"@)
}

pub fn one_line_files(entries: &[String]) -> (r: Vec<String>)
    ensures
        views(r@) == one_line_paths(views(entries@)),
{
    let mut r: Vec<String> = Vec::new();
    r.push("/etc/apt/sources.list".to_owned());
    let mut rest = glob_dir(entries, ".list");
    let ghost tail = views(rest@);
    r.append(&mut rest);
    assert(views(r@) =~= seq!["/etc/apt/sources.list"@] + tail);
    r
}

/// A source file that was read.
pub struct SourceFile {
    pub path: String,
    pub text: String,
}

pub struct SourceFileView {
    pub path: Seq<char>,
    pub text: Seq<char>,
}

impl View for SourceFile {
    type V = SourceFileView;

    open spec fn view(&self) -> SourceFileView {
        SourceFileView { path: self.path@, text: self.text@ }
    }
}

/// A label and the file it stands in.
pub type EntryView = (Seq<char>, Seq<char>);

/// The entries that one file's labels make.
pub open spec fn entries_of(labels: Seq<Seq<char>>, path: Seq<char>) -> Seq<EntryView> {
    labels.map_values(|l: Seq<char>| (l, base_of(path)))
}

/// The entries of some files, one-line ones or blocks.
pub open spec fn entries_in(files: Seq<SourceFileView>, blocks: bool) -> Seq<EntryView>
    decreases files.len(),
{
    if files.len() == 0 {
        Seq::empty()
    } else {
        let f = files.last();
        entries_in(files.drop_last(), blocks) + entries_of(
            if blocks {
                deb822_of(f.text)
            } else {
                rows_of::<EntryLine>(f.text)
            },
            f.path,
        )
    }
}

fn add_entries(out: &mut Vec<(String, String)>, labels: Vec<String>, path: &str)
    ensures
        views(final(out)@) == views(old(out)@) + entries_of(views(labels@), path@),
{
    let file = basename(path);
    let ghost all = entries_of(views(labels@), path@);
    let ghost start = views(out@);
    assert(start + all.take(0) =~= start);
    for l in it: labels
        invariant
            it.seq() == labels@,
            file@ == base_of(path@),
            all == entries_of(views(labels@), path@),
            views(out@) == start + all.take(it.index() as int),
    {
        assert(all[it.index() as int] == (l@, file@));
        let ghost before = out@;
        out.push((l, file.clone()));
        assert(views(out@) =~= views(before).push((l@, file@)));
        assert(start + all.take(it.index() as int + 1) =~= (start + all.take(
            it.index() as int,
        )).push(all[it.index() as int]));
    }
    assert(all.take(all.len() as int) =~= all);
}

fn read_files(files: &[SourceFile], blocks: bool) -> (r: Vec<(String, String)>)
    ensures
        views(r@) == entries_in(views(files@), blocks),
{
    let ghost vs = views(files@);
    let mut r: Vec<(String, String)> = Vec::new();
    let mut i: usize = 0;
    assert(views(r@) =~= entries_in(vs.take(0), blocks));
    while i < files.len()
        invariant
            i <= files@.len(),
            vs == views(files@),
            views(r@) == entries_in(vs.take(i as int), blocks),
        decreases files@.len() - i,
    {
        let f = &files[i];
        assert(vs.take(i as int + 1).drop_last() =~= vs.take(i as int));
        assert(vs.take(i as int + 1).last() == f@);
        let labels = if blocks {
            parse_deb822(f.text.as_str())
        } else {
            rows::<EntryLine>(f.text.as_str())
        };
        add_entries(&mut r, labels, f.path.as_str());
        i += 1;
    }
    assert(vs.take(i as int) =~= vs);
    r
}

/// A base repository: one of the distribution's own files, or an address of
/// the distribution's archives.
pub open spec fn is_base(file: Seq<char>, lower: Seq<char>) -> bool {
    ||| file == "sources.list"@
    ||| file == "ubuntu.sources"@
    ||| occurs(lower, "archive.ubuntu.com"@)
    ||| occurs(lower, "security.ubuntu.com"@)
    ||| occurs(lower, "ports.ubuntu.com"@)
    ||| occurs(lower, "archive.canonical.com"@)
}

/// The source that an entry stands for.
pub open spec fn repo_of(e: EntryView) -> RepoView {
    RepoView {
        label: e.0,
        file: e.1,
        ppa_spec: ppa_of(lowercase(e.0), e.0),
        protected: is_base(e.1, lowercase(e.0)),
    }
}

/// Classifies an entry, given its label's lowercase form.
pub fn classify(label: String, file: String, lower: &str) -> (r: Repo)
    ensures
        r@ == (RepoView {
            label: label@,
            file: file@,
            ppa_spec: ppa_of(lower@, label@),
            protected: is_base(file@, lower@),
        }),
{
    let lc = to_chars(lower);
    let protected = same_text(file.as_str(), "sources.list") || same_text(
        file.as_str(),
        "ubuntu.sources",
    ) || contains(&lc, "archive.ubuntu.com") || contains(&lc, "security.ubuntu.com") || contains(
        &lc,
        "ports.ubuntu.com",
    ) || contains(&lc, "archive.canonical.com");
    let ppa_spec = ppa_in(lower, label.as_str());
    Repo { label, file, ppa_spec, protected }
}

/// Whether some entry has this key.
pub open spec fn has_key(entries: Seq<EntryView>, key: Seq<char>) -> bool {
    exists|i: int| 0 <= i < entries.len() && key_of((#[trigger] entries[i]).1, entries[i].0) == key
}

/// The sources of some entries, the first one of each key.
pub open spec fn collected(entries: Seq<EntryView>) -> Seq<RepoView>
    decreases entries.len(),
{
    if entries.len() == 0 {
        Seq::empty()
    } else {
        let e = entries.last();
        let rest = collected(entries.drop_last());
        if has_key(entries.drop_last(), key_of(e.1, e.0)) || e.0.len() == 0 {
            rest
        } else {
            rest.push(repo_of(e))
        }
    }
}

fn seen_before(seen: &[String], key: &str) -> (r: bool)
    ensures
        r == views(seen@).contains(key@),
{
    let mut i: usize = 0;
    while i < seen.len()
        invariant
            i <= seen@.len(),
            forall|k: int| 0 <= k < i ==> views(seen@)[k] != key@,
        decreases seen@.len() - i,
    {
        assert(views(seen@)[i as int] == seen@[i as int]@);
        if same_text(seen[i].as_str(), key) {
            return true;
        }
        i += 1;
    }
    false
}

fn collect(entries: Vec<(String, String)>) -> (r: Vec<Repo>)
    ensures
        views(r@) == collected(views(entries@)),
{
    broadcast use lemma_views_push;

    let ghost vs = views(entries@);
    let mut seen: Vec<String> = Vec::new();
    let mut r: Vec<Repo> = Vec::new();
    assert(views(r@) =~= collected(vs.take(0)));
    for e in it: entries
        invariant
            it.seq() == entries@,
            vs == views(entries@),
            seen@.len() == it.index(),
            forall|k: int|
                0 <= k < it.index() ==> views(seen@)[k] == key_of((#[trigger] vs[k]).1, vs[k].0),
            views(r@) == collected(vs.take(it.index() as int)),
    {
        let ghost i = it.index() as int;
        let (label, file) = e;
        assert(vs[i] == (label@, file@));
        let ghost upto = vs.take(i + 1);
        assert(upto.drop_last() =~= vs.take(i));
        let key = make_key(file.as_str(), label.as_str());
        let again = seen_before(&seen, key.as_str());
        proof {
            if again {
                let k = choose|k: int| 0 <= k < seen@.len() && views(seen@)[k] == key@;
                assert(key_of(vs[k].1, vs[k].0) == key@);
                assert(vs.take(i)[k] == vs[k]);
            } else if has_key(vs.take(i), key@) {
                let k = choose|k: int|
                    0 <= k < i && key_of((#[trigger] vs.take(i)[k]).1, vs.take(i)[k].0) == key@;
                assert(vs.take(i)[k] == vs[k]);
                assert(views(seen@)[k] == key@);
            }
        }
        let blank = to_chars(label.as_str()).len() == 0;
        let ghost before = seen@;
        seen.push(key);
        assert(views(seen@) =~= views(before).push(key@));
        if !again && !blank {
            let lower = label.as_str().to_lowercase();
            r.push(classify(label, file, lower.as_str()));
        }
    }
    assert(vs.take(vs.len() as int) =~= vs);
    r
}

/// Third-party sources first, each kind by label whatever its case.
pub open spec fn listed_first(a: RepoView, b: RepoView) -> bool {
    (!a.protected && b.protected) || (a.protected == b.protected && text_lt(
        lowercase(a.label),
        lowercase(b.label),
    ))
}

impl Ranked for Repo {
    open spec fn precedes(a: RepoView, b: RepoView) -> bool {
        listed_first(a, b)
    }

    fn before(&self, other: &Self) -> (r: bool) {
        let a = self.label.as_str().to_lowercase();
        let b = other.label.as_str().to_lowercase();
        (!self.protected && other.protected) || (self.protected == other.protected && string_less(
            a.as_str(),
            b.as_str(),
        ))
    }

    proof fn law_precedes(a: RepoView, b: RepoView, c: RepoView) {
        law_text_order(lowercase(a.label), lowercase(b.label), lowercase(c.label));
        law_text_order(lowercase(b.label), lowercase(a.label), lowercase(c.label));
    }
}

/// All sources of the files that were read.
pub open spec fn repos_of(lists: Seq<SourceFileView>, blocks: Seq<SourceFileView>) -> Seq<RepoView> {
    sorted_by(
        collected(entries_in(lists, false) + entries_in(blocks, true)),
        order_of::<Repo>(),
    )
}

pub fn list_repos(lists: &[SourceFile], blocks: &[SourceFile]) -> (r: Vec<Repo>)
    ensures
        views(r@) == repos_of(views(lists@), views(blocks@)),
{
    let mut entries = read_files(lists, false);
    let mut more = read_files(blocks, true);
    let ghost a = views(entries@);
    let ghost b = views(more@);
    entries.append(&mut more);
    assert(views(entries@) =~= a + b);
    stable_sort(collect(entries))
}

proof fn lemma_collected(entries: Seq<EntryView>)
    ensures
        forall|i: int|
            0 <= i < collected(entries).len() ==> {
                let r = #[trigger] collected(entries)[i];
                r == repo_of((r.label, r.file)) && has_key(entries, key_of(r.file, r.label))
            },
        forall|i: int, j: int|
            0 <= i < j < collected(entries).len() ==> key_of(
                (#[trigger] collected(entries)[i]).file,
                collected(entries)[i].label,
            ) != key_of((#[trigger] collected(entries)[j]).file, collected(entries)[j].label),
    decreases entries.len(),
{
    if entries.len() > 0 {
        let head = entries.drop_last();
        lemma_collected(head);
        let e = entries.last();
        let c = collected(entries);
        assert forall|i: int| 0 <= i < c.len() implies ({
            let r = #[trigger] c[i];
            r == repo_of((r.label, r.file)) && has_key(entries, key_of(r.file, r.label))
        }) by {
            let r = c[i];
            if i < collected(head).len() {
                assert(r == collected(head)[i]);
                let k = choose|k: int|
                    0 <= k < head.len() && key_of((#[trigger] head[k]).1, head[k].0) == key_of(
                        r.file,
                        r.label,
                    );
                assert(entries[k] == head[k]);
            } else {
                assert(entries[entries.len() - 1] == e);
            }
        }
    }
}

/// A listing names no source twice, marks exactly the base ones as protected
/// and puts them behind the others.
pub proof fn law_repos_listed(lists: Seq<SourceFileView>, blocks: Seq<SourceFileView>)
    ensures
        in_order(repos_of(lists, blocks), order_of::<Repo>()),
        forall|i: int, j: int|
            0 <= i < j < repos_of(lists, blocks).len() ==> key_of(
                (#[trigger] repos_of(lists, blocks)[i]).file,
                repos_of(lists, blocks)[i].label,
            ) != key_of(
                (#[trigger] repos_of(lists, blocks)[j]).file,
                repos_of(lists, blocks)[j].label,
            ),
        forall|i: int|
            0 <= i < repos_of(lists, blocks).len() ==> (#[trigger] repos_of(
                lists,
                blocks,
            )[i]).protected == is_base(
                repos_of(lists, blocks)[i].file,
                lowercase(repos_of(lists, blocks)[i].label),
            ),
{
    let all = entries_in(lists, false) + entries_in(blocks, true);
    let s = collected(all);
    let r = repos_of(lists, blocks);
    lemma_collected(all);
    law_ranked_sort::<Repo>(s);
    assert(s.no_duplicates());
    law_sort_keeps_distinct(s, order_of::<Repo>());
    assert forall|i: int, j: int| 0 <= i < j < r.len() implies key_of(
        (#[trigger] r[i]).file,
        r[i].label,
    ) != key_of((#[trigger] r[j]).file, r[j].label) by {
        law_sort_same_items(s, order_of::<Repo>());
        let k = choose|k: int| 0 <= k < s.len() && s[k] == r[i];
        let l = choose|l: int| 0 <= l < s.len() && s[l] == r[j];
        assert(r[i] != r[j]);
        assert(k != l);
        assert(s[k].label == r[i].label && s[l].label == r[j].label);
    }
    assert forall|i: int| 0 <= i < r.len() implies (#[trigger] r[i]).protected == is_base(
        r[i].file,
        lowercase(r[i].label),
    ) by {
        law_sort_same_items(s, order_of::<Repo>());
        let k = choose|k: int| 0 <= k < s.len() && s[k] == r[i];
        assert(s[k] == repo_of((s[k].label, s[k].file)));
    }
}

// --- adding and removing ----------------------------------------------------

/// What a removal comes to.
pub enum RemovalView {
    /// It is refused.
    Refused(Seq<char>),
    /// A fresh listing is needed to tell.
    List,
    /// The command to run as the administrator.
    Start(Seq<Seq<char>>),
}

/// Whether a file holds anything beside one unprotected source.
pub open spec fn file_is_shared(listing: Seq<RepoView>, file: Seq<char>) -> bool {
    let here = kept(
        listing,
        |r: RepoView|
            if r.file == file {
                Some(r)
            } else {
                None
            },
    );
    here.len() > 1 || exists|i: int| 0 <= i < here.len() && (#[trigger] here[i]).protected
}

/// How a source is removed: a personal archive by its name, any other source
/// by deleting its file, if the file holds nothing else.
pub open spec fn removal_of(r: RepoView, listing: Option<Seq<RepoView>>) -> RemovalView {
    if r.protected {
        RemovalView::Refused("That's a base Ubuntu repository and can't be removed here."@)
    } else {
        match r.ppa_spec {
            Some(spec) => if !is_ppa(spec) {
                RemovalView::Refused(
                    "Couldn't parse that PPA well enough to remove it safely."@,
                )
            } else {
                RemovalView::Start(seq!["add-apt-repository"@, "-y"@, "--remove"@, spec])
            },
            None => if !is_source_file(r.file) {
                RemovalView::Refused("Couldn't determine how to remove that source safely."@)
            } else {
                match listing {
                    None => RemovalView::List,
                    Some(l) => if file_is_shared(l, r.file) {
                        RemovalView::Refused(
                            r.file
                                + " defines other repositories too — edit it manually to remove just this one."@,
                        )
                    } else {
                        RemovalView::Start(
                            seq!["rm"@, "-f"@, "/etc/apt/sources.list.d/"@ + r.file],
                        )
                    },
                }
            },
        }
    }
}

fn shared(listing: &[Repo], file: &str) -> (r: bool)
    ensures
        r == file_is_shared(views(listing@), file@),
{
    let ghost vs = views(listing@);
    let ghost f = |r: RepoView|
        if r.file == file@ {
            Some(r)
        } else {
            None
        };
    let ghost mut here: Seq<RepoView> = Seq::empty();
    let mut count: usize = 0;
    let mut protected = false;
    let mut i: usize = 0;
    proof {
        lemma_kept_ends(here, vs, f);
    }
    while i < listing.len()
        invariant
            i <= listing@.len(),
            count <= i,
            vs == views(listing@),
            f == (|r: RepoView|
                if r.file == file@ {
                    Some(r)
                } else {
                    None
                }),
            here.len() == count,
            protected == exists|k: int| 0 <= k < here.len() && (#[trigger] here[k]).protected,
            here + kept(vs.skip(i as int), f) == kept(vs, f),
        decreases listing@.len() - i,
    {
        proof {
            lemma_kept_step(here, vs, i as int, f);
        }
        assert(vs[i as int] == listing@[i as int]@);
        if same_text(listing[i].file.as_str(), file) {
            let ghost before = here;
            proof {
                here = here.push(vs[i as int]);
                assert(here.last().protected == listing@[i as int].protected);
                if protected {
                    let k = choose|k: int| 0 <= k < before.len() && (#[trigger] before[k]).protected;
                    assert(here[k].protected);
                }
                if exists|k: int| 0 <= k < here.len() && (#[trigger] here[k]).protected {
                    let k = choose|k: int| 0 <= k < here.len() && (#[trigger] here[k]).protected;
                    if k < before.len() {
                        assert(before[k].protected);
                    }
                }
            }
            count += 1;
            protected = protected || listing[i].protected;
        }
        i += 1;
    }
    proof {
        lemma_kept_ends(here, vs, f);
    }
    count > 1 || protected
}

/// What comes of asking for a change.
pub enum Change {
    /// Something is running already.
    Idle,
    /// Refused; the state says why.
    Refused,
    /// List the sources afresh and ask again.
    List,
    /// Run this command as the administrator.
    Start(Vec<String>),
}

/// What the sources tab shows.
pub struct RepoState {
    pub loading: bool,
    pub loaded: bool,
    pub repos: Vec<Repo>,
    pub error: Option<String>,
    pub busy: bool,
    pub log: Vec<String>,
    pub done: bool,
    pub ok: bool,
}

#[verifier::ext_equal]
pub struct RepoStateView {
    pub loading: bool,
    pub loaded: bool,
    pub repos: Seq<RepoView>,
    pub error: Option<Seq<char>>,
    pub busy: bool,
    pub log: Seq<Seq<char>>,
    pub done: bool,
    pub ok: bool,
}

impl View for RepoState {
    type V = RepoStateView;

    open spec fn view(&self) -> RepoStateView {
        RepoStateView {
            loading: self.loading,
            loaded: self.loaded,
            repos: views(self.repos@),
            error: opt(self.error),
            busy: self.busy,
            log: views(self.log@),
            done: self.done,
            ok: self.ok,
        }
    }
}

impl RepoStateView {
    /// Nothing listed, nothing running.
    pub open spec fn initial() -> RepoStateView {
        RepoStateView {
            loading: false,
            loaded: false,
            repos: Seq::empty(),
            error: None,
            busy: false,
            log: Seq::empty(),
            done: false,
            ok: false,
        }
    }

    /// A command under this title has started.
    pub open spec fn started(self, title: Seq<char>) -> RepoStateView {
        RepoStateView {
            busy: true,
            done: false,
            ok: false,
            log: seq![title, "Requesting administrator access…"@],
            error: None,
            ..self
        }
    }

    /// Whether nothing may be asked for now.
    pub open spec fn occupied(self) -> bool {
        self.busy || self.loading
    }
}

impl Default for RepoState {
    fn default() -> (r: Self)
        ensures
            r@ == RepoStateView::initial(),
    {
        let r = RepoState {
            loading: false,
            loaded: false,
            repos: Vec::new(),
            error: None,
            busy: false,
            log: Vec::new(),
            done: false,
            ok: false,
        };
        assert(r@ =~= RepoStateView::initial());
        r
    }
}

/// The sources tab's worker: what may start, and what each outcome changes.
pub struct Repos {
    pub state: RepoState,
}

impl View for Repos {
    type V = RepoStateView;

    open spec fn view(&self) -> RepoStateView {
        self.state@
    }
}

/// What asking to add an archive gives.
pub open spec fn add_outcome(s: RepoStateView, spec: Seq<char>, r: Change) -> bool {
    if s.occupied() {
        r == Change::Idle
    } else if !is_ppa(spec) {
        r == Change::Refused
    } else {
        r matches Change::Start(args) && views(args@) == seq!["add-apt-repository"@, "-y"@, spec]
    }
}

/// What asking to remove a source gives.
pub open spec fn remove_outcome(
    s: RepoStateView,
    repo: RepoView,
    listing: Option<Seq<RepoView>>,
    r: Change,
) -> bool {
    if s.occupied() {
        r == Change::Idle
    } else {
        match removal_of(repo, listing) {
            RemovalView::Refused(_) => r == Change::Refused,
            RemovalView::List => r == Change::List,
            RemovalView::Start(c) => r matches Change::Start(args) && views(args@) == c,
        }
    }
}

/// The view of a listing that may be at hand.
pub open spec fn listing_view(l: Option<Vec<Repo>>) -> Option<Seq<RepoView>> {
    match l {
        Some(v) => Some(views(v@)),
        None => None,
    }
}

impl Repos {
    pub fn new() -> (r: Self)
        ensures
            r@ == RepoStateView::initial(),
    {
        Repos { state: RepoState::default() }
    }

    pub fn is_busy(&self) -> (r: bool)
        ensures
            r == self@.busy,
    {
        self.state.busy
    }

    pub fn is_loading(&self) -> (r: bool)
        ensures
            r == self@.loading,
    {
        self.state.loading
    }

    /// Whether a listing starts now.
    pub fn load(&mut self) -> (start: bool)
        ensures
            start == !(old(self)@.loading || old(self)@.busy),
            final(self)@ == if start {
                RepoStateView { loading: true, error: None, ..old(self)@ }
            } else {
                old(self)@
            },
    {
        if self.is_loading() || self.is_busy() {
            return false;
        }
        self.state.loading = true;
        self.state.error = None;
        true
    }

    /// Takes in a finished listing.
    pub fn loaded(&mut self, repos: Vec<Repo>)
        ensures
            final(self)@ == (RepoStateView {
                repos: views(repos@),
                loading: false,
                loaded: true,
                ..old(self)@
            }),
    {
        self.state.repos = repos;
        self.state.loading = false;
        self.state.loaded = true;
    }

    /// Asks to add a personal archive.
    pub fn add_ppa(&mut self, spec: &str) -> (r: Change)
        ensures
            add_outcome(old(self)@, trimmed(spec@), r),
            final(self)@ == if old(self)@.occupied() {
                old(self)@
            } else if !is_ppa(trimmed(spec@)) {
                RepoStateView { error: Some("Enter a PPA like ppa:user/name."@), ..old(self)@ }
            } else {
                old(self)@.started("Adding "@ + trimmed(spec@) + "…"@)
            },
    {
        let c = to_chars(spec);
        let s = to_text(trim(&c));
        if self.is_busy() || self.is_loading() {
            return Change::Idle;
        }
        if !valid_ppa(s.as_str()) {
            self.fail("Enter a PPA like ppa:user/name.");
            return Change::Refused;
        }
        let mut title = "Adding ".to_owned();
        title.append(s.as_str());
        title.append("…");
        self.run(title);
        let mut args: Vec<String> = Vec::new();
        args.push("add-apt-repository".to_owned());
        args.push("-y".to_owned());
        args.push(s);
        assert(views(args@) =~= seq!["add-apt-repository"@, "-y"@, trimmed(spec@)]);
        Change::Start(args)
    }

    /// Asks to remove a source, with a fresh listing where one is at hand.
    pub fn remove(&mut self, repo: &Repo, listing: &Option<Vec<Repo>>) -> (r: Change)
        ensures
            remove_outcome(old(self)@, repo@, listing_view(*listing), r),
            final(self)@ == if old(self)@.occupied() {
                old(self)@
            } else {
                match removal_of(repo@, listing_view(*listing)) {
                    RemovalView::Refused(m) => RepoStateView { error: Some(m), ..old(self)@ },
                    RemovalView::List => old(self)@,
                    RemovalView::Start(_) => old(self)@.started(
                        "Removing "@ + repo@.label + "…"@,
                    ),
                }
            },
    {
        if self.is_busy() || self.is_loading() {
            return Change::Idle;
        }
        if repo.protected {
            self.fail("That's a base Ubuntu repository and can't be removed here.");
            return Change::Refused;
        }
        let mut args: Vec<String> = Vec::new();
        if let Some(spec) = &repo.ppa_spec {
            if !valid_ppa(spec.as_str()) {
                self.fail("Couldn't parse that PPA well enough to remove it safely.");
                return Change::Refused;
            }
            args.push("add-apt-repository".to_owned());
            args.push("-y".to_owned());
            args.push("--remove".to_owned());
            args.push(spec.as_str().to_owned());
            assert(views(args@) =~= seq!["add-apt-repository"@, "-y"@, "--remove"@, spec@]);
        } else {
            if !valid_source_file(repo.file.as_str()) {
                self.fail("Couldn't determine how to remove that source safely.");
                return Change::Refused;
            }
            match listing {
                None => {
                    return Change::List;
                },
                Some(l) => {
                    if shared(l, repo.file.as_str()) {
                        let mut m = repo.file.as_str().to_owned();
                        m.append(
                            " defines other repositories too — edit it manually to remove just this one.",
                        );
                        self.fail(m.as_str());
                        return Change::Refused;
                    }
                },
            }
            let mut path = "/etc/apt/sources.list.d/".to_owned();
            path.append(repo.file.as_str());
            args.push("rm".to_owned());
            args.push("-f".to_owned());
            args.push(path);
            assert(views(args@) =~= seq!["rm"@, "-f"@, "/etc/apt/sources.list.d/"@ + repo@.file]);
        }
        let mut title = "Removing ".to_owned();
        title.append(repo.label.as_str());
        title.append("…");
        self.run(title);
        Change::Start(args)
    }

    /// Says why nothing was done.
    pub fn fail(&mut self, msg: &str)
        ensures
            final(self)@ == (RepoStateView { error: Some(msg@), ..old(self)@ }),
    {
        self.state.error = Some(msg.to_owned());
    }

    /// Marks a command as started.
    pub fn run(&mut self, title: String)
        ensures
            final(self)@ == old(self)@.started(title@),
    {
        self.state.busy = true;
        self.state.done = false;
        self.state.ok = false;
        let mut log: Vec<String> = Vec::new();
        log.push(title);
        log.push("Requesting administrator access…".to_owned());
        self.state.log = log;
        self.state.error = None;
        assert(self@.log =~= seq![title@, "Requesting administrator access…"@]);
    }

    /// Adds a line to the transcript.
    pub fn push_log(&mut self, line: String)
        ensures
            final(self)@ == (RepoStateView {
                log: newest_lines(old(self)@.log.push(line@)),
                ..old(self)@
            }),
    {
        push_log(&mut self.state.log, line);
    }

    /// Takes in a command that ended, with a fresh listing.
    pub fn finish(&mut self, repos: Vec<Repo>, ok: bool, err: Option<String>)
        ensures
            final(self)@ == (RepoStateView {
                repos: views(repos@),
                busy: false,
                done: true,
                ok,
                error: if err is Some {
                    opt(err)
                } else {
                    old(self)@.error
                },
                ..old(self)@
            }),
    {
        self.state.repos = repos;
        self.state.busy = false;
        self.state.done = true;
        self.state.ok = ok;
        if err.is_some() {
            self.state.error = err;
        }
    }

    /// Puts a finished command's transcript away.
    pub fn dismiss(&mut self)
        ensures
            final(self)@ == (RepoStateView { log: Seq::empty(), done: false, ..old(self)@ }),
    {
        self.state.log.clear();
        self.state.done = false;
        assert(views(self.state.log@) =~= Seq::empty());
    }
}

/// The message of a command that did not succeed.
pub fn change_error(err: &str) -> (r: String)
    ensures
        r@ == failure_of(err@, "The operation didn't finish. See the log above."@),
{
    failure(err, "The operation didn't finish. See the log above.")
}

/// A removal that runs never concerns a base repository. It names a personal
/// archive in full form, or deletes one file of the sources
/// directory that holds nothing protected and no other source.
pub proof fn law_removal_is_safe(r: RepoView, listing: Option<Seq<RepoView>>)
    requires
        removal_of(r, listing) is Start,
    ensures
        !r.protected,
        r.ppa_spec is Some ==> is_ppa(r.ppa_spec->0) && removal_of(r, listing) == RemovalView::Start(
            seq!["add-apt-repository"@, "-y"@, "--remove"@, r.ppa_spec->0],
        ),
        r.ppa_spec is None ==> {
            &&& is_source_file(r.file)
            &&& shell_inert(r.file)
            &&& !r.file.contains('/')
            &&& listing is Some && !file_is_shared(listing->0, r.file)
            &&& removal_of(r, listing) == RemovalView::Start(
                seq!["rm"@, "-f"@, "/etc/apt/sources.list.d/"@ + r.file],
            )
        },
{
    if r.ppa_spec is None {
        reveal_strlit("._-+:");
        reveal_strlit(" |&;<>()$`\\\"'*?[]{}#!=%");
        lemma_plain_is_inert(r.file, "._-+:"@, 200);
        if r.file.contains('/') {
            let k = choose|k: int| 0 <= k < r.file.len() && r.file[k] == '/';
            assert(r.file[k] == '/');
        }
    }
}

// --- what is shown ----------------------------------------------------------

impl Repo {
    /// What a source is called: its archive where it is a personal one.
    pub fn primary(&self) -> (r: &str)
        ensures
            r@ == (match self@.ppa_spec {
                Some(spec) => spec,
                None => self@.label,
            }),
    {
        match &self.ppa_spec {
            Some(spec) => spec.as_str(),
            None => self.label.as_str(),
        }
    }

    /// Where a source stands.
    pub fn detail(&self) -> (r: String)
        ensures
            r@ == (if self@.ppa_spec is Some {
                self@.label + "  ·  "@ + self@.file
            } else {
                self@.file
            }),
    {
        if self.ppa_spec.is_some() {
            let mut s = self.label.as_str().to_owned();
            s.append("  ·  ");
            s.append(self.file.as_str());
            s
        } else {
            self.file.as_str().to_owned()
        }
    }
}

// --- what the listing must satisfy ------------------------------------------

/// Each of these alone makes a source a base one, and nothing else does: that
/// it stands in one of the distribution's two files, or that its label names
/// one of the four hosts of the distribution's archives.
pub proof fn law_base_sources(file: Seq<char>, lower: Seq<char>, label: Seq<char>)
    ensures
        is_base("sources.list"@, lower),
        is_base("ubuntu.sources"@, lower),
        occurs(lower, "archive.ubuntu.com"@) ==> is_base(file, lower),
        occurs(lower, "security.ubuntu.com"@) ==> is_base(file, lower),
        occurs(lower, "ports.ubuntu.com"@) ==> is_base(file, lower),
        occurs(lower, "archive.canonical.com"@) ==> is_base(file, lower),
        is_base(file, lower) ==> file == "sources.list"@ || file == "ubuntu.sources"@ || occurs(
            lower,
            "archive.ubuntu.com"@,
        ) || occurs(lower, "security.ubuntu.com"@) || occurs(lower, "ports.ubuntu.com"@) || occurs(
            lower,
            "archive.canonical.com"@,
        ),
        repo_of((label, file)).protected == is_base(file, lowercase(label)),
        repo_of((label, file)).label == label,
        repo_of((label, file)).file == file,
        repo_of((label, file)).ppa_spec == ppa_of(lowercase(label), label),
{
}

/// In every listing a source is protected exactly by its file or its host, and
/// a protected source is never removed.
pub proof fn law_base_sources_stay(
    lists: Seq<SourceFileView>,
    blocks: Seq<SourceFileView>,
    i: int,
    listing: Option<Seq<RepoView>>,
)
    requires
        0 <= i < repos_of(lists, blocks).len(),
    ensures
        ({
            let r = repos_of(lists, blocks)[i];
            let l = lowercase(r.label);
            &&& r.protected <==> r.file == "sources.list"@ || r.file == "ubuntu.sources"@ || occurs(
                l,
                "archive.ubuntu.com"@,
            ) || occurs(l, "security.ubuntu.com"@) || occurs(l, "ports.ubuntu.com"@) || occurs(
                l,
                "archive.canonical.com"@,
            )
            &&& r.protected ==> removal_of(r, listing) is Refused
        }),
{
    law_repos_listed(lists, blocks);
    let r = repos_of(lists, blocks)[i];
    assert(r.protected == is_base(r.file, lowercase(r.label)));
    law_base_sources(r.file, lowercase(r.label), r.label);
}

/// An entry gives its address and its suite, behind whatever options stand in
/// brackets in front; a line of any other kind gives none.
pub proof fn law_entry(line: Seq<char>, options: Seq<Seq<char>>, rest: Seq<Seq<char>>)
    requires
        words_of(line) == seq!["deb"@] + options + rest,
        options.len() > 0 ==> options[0].len() > 0 && options[0][0] == '[' && options.last().len()
            > 0 && options.last().last() == ']' && forall|i: int|
            0 <= i < options.len() - 1 ==> (#[trigger] options[i]).len() == 0 || options[i].last()
                != ']',
        forall|i: int|
            0 <= i < rest.len() ==> (#[trigger] rest[i]).len() > 0 && rest[i][0] != '['
                && rest[i].last() != ']' && spaceless(rest[i]),
    ensures
        rest.len() == 0 ==> one_line_of(line) is None,
        rest.len() == 1 ==> one_line_of(line) == Some(rest[0]),
        rest.len() >= 2 ==> one_line_of(line) == Some(rest[0] + " "@ + rest[1]),
{
    lemma_brackets();
    let w = words_of(line);
    let args = w.skip(1);
    assert(args =~= options + rest);
    assert(w[0] == "deb"@);
    assert forall|i: int| 0 <= i < rest.len() implies !is_bracketed(#[trigger] rest[i]) by {
        lemma_prefix_chars(rest[i], "["@);
        lemma_prefix_chars(rest[i], "]"@);
        if "["@.is_prefix_of(rest[i]) {
            assert(rest[i][0] == "["@[0]);
        }
        if "]"@.is_suffix_of(rest[i]) {
            assert(rest[i][rest[i].len() - 1 + 0] == "]"@[0]);
        }
    }
    if options.len() > 0 {
        lemma_prefix_chars(options[0], "["@);
        lemma_prefix_chars(options.last(), "]"@);
        assert forall|i: int| 0 <= i < options.len() - 1 implies !"]"@.is_suffix_of(
            #[trigger] options[i],
        ) by {
            lemma_prefix_chars(options[i], "]"@);
            if "]"@.is_suffix_of(options[i]) {
                assert(options[i][options[i].len() - 1 + 0] == "]"@[0]);
            }
        }
        law_options_are_skipped(options, rest);
    } else {
        assert(args =~= rest);
        if rest.len() > 0 {
            assert(!is_bracketed(rest[0]));
            assert(!"["@.is_prefix_of(args[0]));
        }
        assert(options_len(args) == 0);
        assert(args.skip(0) =~= args);
        lemma_all_arguments(rest);
    }
    if rest.len() > 0 {
        let suite = field_of(rest, 1);
        lemma_label(rest[0], suite);
    }
}

proof fn lemma_brackets()
    ensures
        "["@ == seq!['['],
        "]"@ == seq![']'],
        " "@ == seq![' '],
{
    reveal_strlit("[");
    reveal_strlit("]");
    reveal_strlit(" ");
    assert("["@ =~= seq!['[']);
    assert("]"@ =~= seq![']']);
    assert(" "@ =~= seq![' ']);
}

proof fn lemma_label(uri: Seq<char>, suite: Seq<char>)
    requires
        uri.len() > 0,
        spaceless(uri),
        spaceless(suite),
    ensures
        suite.len() == 0 ==> label_of(uri, suite) == uri,
        suite.len() > 0 ==> label_of(uri, suite) == uri + " "@ + suite,
{
    lemma_brackets();
    let none = Seq::<char>::empty();
    assert(uri.last() == uri[uri.len() - 1]);
    assert(blank(" "@));
    if suite.len() == 0 {
        law_trimmed(none, uri, " "@);
        assert(none + uri + " "@ =~= uri + " "@ + suite);
    } else {
        let s = uri + " "@ + suite;
        assert(s[0] == uri[0]);
        assert(s.last() == suite[suite.len() - 1]);
        law_trimmed(none, s, none);
    }
}

/// A line whose first word is not `deb` gives no source.
pub proof fn law_no_entry(line: Seq<char>)
    requires
        words_of(line).len() == 0 || words_of(line)[0] != "deb"@,
    ensures
        one_line_of(line) is None,
{
}

proof fn lemma_bracketed(x: Seq<char>)
    ensures
        "["@.is_prefix_of(x) <==> x.len() > 0 && x[0] == '[',
        "]"@.is_suffix_of(x) <==> x.len() > 0 && x.last() == ']',
{
    lemma_brackets();
    lemma_prefix_chars(x, "["@);
    lemma_prefix_chars(x, "]"@);
    if x.len() > 0 {
        assert(x.last() == x[x.len() - 1 + 0]);
    }
}

proof fn lemma_never_closed(w: Seq<Seq<char>>)
    requires
        forall|i: int| 0 <= i < w.len() ==> (#[trigger] w[i]).len() == 0 || w[i].last() != ']',
    ensures
        closed_after(w) is None,
    decreases w.len(),
{
    if w.len() > 0 {
        lemma_bracketed(w[0]);
        let rest = w.skip(1);
        assert forall|i: int| 0 <= i < rest.len() implies (#[trigger] rest[i]).len() == 0
            || rest[i].last() != ']' by {
            assert(rest[i] == w[i + 1]);
        }
        lemma_never_closed(rest);
    }
}

proof fn lemma_one_more(w: Seq<Seq<char>>, x: Seq<char>)
    requires
        options_len(w) == 0,
        options_len(w.push(x)) == 0,
    ensures
        x.len() > 0 && (x[0] == '[' || x.last() == ']') ==> arguments_of(w.push(x)) == arguments_of(
            w,
        ),
        !(x.len() > 0 && (x[0] == '[' || x.last() == ']')) ==> arguments_of(w.push(x))
            == arguments_of(w).push(x),
{
    lemma_bracketed(x);
    let t = w.push(x);
    let f = reader::<Argument>();
    assert(f(x) == <Argument as LineReader>::row_of(x));
    assert(t =~= w + seq![x]);
    law_kept_in_order(w, seq![x], x, f);
    assert(t.skip(0) =~= t && w.skip(0) =~= w);
    assert(kept(w, f) + Seq::<Seq<char>>::empty() =~= kept(w, f));
    assert(kept(w, f) + seq![x] =~= kept(w, f).push(x));
}

/// Where the first word opens no bracket, words that open or close one are
/// passed over one by one, and all others count.
pub proof fn law_brackets_behind(w: Seq<Seq<char>>, x: Seq<char>)
    requires
        w.len() > 0,
        w[0].len() == 0 || w[0][0] != '[',
    ensures
        x.len() > 0 && (x[0] == '[' || x.last() == ']') ==> arguments_of(w.push(x)) == arguments_of(
            w,
        ),
        !(x.len() > 0 && (x[0] == '[' || x.last() == ']')) ==> arguments_of(w.push(x))
            == arguments_of(w).push(x),
{
    lemma_bracketed(w[0]);
    assert(w.push(x)[0] == w[0]);
    lemma_one_more(w, x);
}

/// Where no word closes a bracket, words that open one are passed over one by
/// one, and all others count.
pub proof fn law_bracket_left_open(w: Seq<Seq<char>>, x: Seq<char>)
    requires
        forall|i: int| 0 <= i < w.len() ==> (#[trigger] w[i]).len() == 0 || w[i].last() != ']',
        x.len() == 0 || x.last() != ']',
    ensures
        x.len() > 0 && x[0] == '[' ==> arguments_of(w.push(x)) == arguments_of(w),
        !(x.len() > 0 && x[0] == '[') ==> arguments_of(w.push(x)) == arguments_of(w).push(x),
        arguments_of(Seq::empty()).len() == 0,
{
    let t = w.push(x);
    assert forall|i: int| 0 <= i < t.len() implies (#[trigger] t[i]).len() == 0 || t[i].last()
        != ']' by {
        if i < w.len() {
            assert(t[i] == w[i]);
        }
    }
    lemma_never_closed(w);
    lemma_never_closed(t);
    lemma_one_more(w, x);
    let none = Seq::<Seq<char>>::empty();
    assert(none.skip(0) =~= none);
}

/// Blank lines and comments of a file of entries give no source; any other
/// line gives what it gives without the space around it.
pub proof fn law_entry_line(line: Seq<char>)
    ensures
        trimmed(line).len() == 0 ==> <EntryLine as LineReader>::row_of(line) is None,
        trimmed(line).len() > 0 && trimmed(line)[0] == '#' ==> <EntryLine as LineReader>::row_of(
            line,
        ) is None,
        trimmed(line).len() > 0 && trimmed(line)[0] != '#' ==> <EntryLine as LineReader>::row_of(
            line,
        ) == one_line_of(trimmed(line)),
{
    reveal_strlit("#");
    lemma_prefix_chars(trimmed(line), "#"@);
    if trimmed(line).len() > 0 && trimmed(line)[0] == '#' {
        assert(forall|i: int| 0 <= i < 1 ==> #[trigger] trimmed(line)[i] == "#"@[i]);
    }
    if "#"@.is_prefix_of(trimmed(line)) {
        assert(trimmed(line)[0] == "#"@[0]);
    }
}

/// Of the fields of a block, the last of each name counts, whatever the case
/// of its name.
pub proof fn law_last_field(
    ls: Seq<Seq<char>>,
    field_name: Seq<char>,
    value: Seq<char>,
    name: Seq<char>,
)
    requires
        !field_name.contains(':'),
    ensures
        lowercase(trimmed(field_name)) == name ==> last_value(
            ls.push(field_name + seq![':'] + value),
            name,
        ) == Some(value),
        lowercase(trimmed(field_name)) != name ==> last_value(
            ls.push(field_name + seq![':'] + value),
            name,
        ) == last_value(ls, name),
        last_value(ls.push(field_name), name) == last_value(ls, name),
        last_value(Seq::empty(), name) is None,
{
    reveal_strlit(":");
    assert(":"@ =~= seq![':']);
    let line = field_name + seq![':'] + value;
    law_split_once(field_name, value, ':');
    assert(ls.push(line).drop_last() =~= ls);
    assert(ls.push(field_name).drop_last() =~= ls);
}

/// A block gives its first address with its first suite, unless it is switched
/// off or has no address.
pub proof fn law_block(block: Seq<char>)
    ensures
        ({
            let ls = lines_of(block);
            let off = last_value(ls, "enabled"@) matches Some(v) && lowercase(trimmed(v)) == "no"@;
            let suite = match last_value(ls, "suites"@) {
                Some(v) => if words_of(v).len() > 0 {
                    words_of(v)[0]
                } else {
                    Seq::empty()
                },
                None => Seq::empty(),
            };
            &&& off ==> block_of(block) is None
            &&& last_value(ls, "uris"@) is None ==> block_of(block) is None
            &&& last_value(ls, "uris"@) matches Some(v) ==> {
                &&& words_of(v).len() == 0 ==> block_of(block) is None
                &&& words_of(v).len() > 0 && !off ==> block_of(block) == Some(
                    trimmed(words_of(v)[0] + " "@ + suite),
                )
            }
        }),
{
}

/// Blocks are read one by one, parted by empty lines.
pub proof fn law_blocks(a: Seq<char>, b: Seq<char>)
    requires
        find_in(a + "\n\n"@ + b, "\n\n"@) == Some(a.len() as int),
    ensures
        (match block_of(a) {
            Some(l) => deb822_of(a + "\n\n"@ + b) == seq![l] + deb822_of(b),
            None => deb822_of(a + "\n\n"@ + b) == deb822_of(b),
        }),
        !occurs(b, "\n\n"@) ==> (match block_of(b) {
            Some(l) => deb822_of(b) == seq![l],
            None => deb822_of(b).len() == 0,
        }),
{
    reveal_strlit("\n\n");
    let s = a + "\n\n"@ + b;
    assert(s.take(a.len() as int) =~= a);
    assert(s.skip(a.len() as int + 2) =~= b);
    let f = reader::<Block>();
    assert(f(a) == block_of(a));
    assert(f(b) == block_of(b));
    let parts = split_by(s, "\n\n"@);
    assert(parts == seq![a] + split_by(b, "\n\n"@));
    assert(parts[0] == a);
    assert(parts.skip(1) =~= split_by(b, "\n\n"@));
    law_kept_in_order(seq![b], seq![b], b, f);
}

/// A source without the archives' host is no personal archive.
pub proof fn law_no_ppa(lower: Seq<char>, label: Seq<char>)
    ensures
        !occurs(lower, "ppa.launchpad"@) ==> ppa_of(lower, label) is None,
        words_of(label).len() == 0 ==> ppa_of(lower, label) is None,
        words_of(label).len() > 0 && !occurs(words_of(label)[0], "launchpadcontent.net/"@)
            && !occurs(words_of(label)[0], "launchpad.net/"@) ==> ppa_of(lower, label) is None,
{
}

/// What follows a host, up to the next slash but one, names the archive; where
/// either part is empty there is none.
pub proof fn law_ppa_parts(
    lower: Seq<char>,
    label: Seq<char>,
    front: Seq<char>,
    user: Seq<char>,
    name: Seq<char>,
    rest: Seq<char>,
)
    requires
        occurs(lower, "ppa.launchpad"@),
        !user.contains('/'),
        !name.contains('/'),
        words_of(label).len() > 0,
        ({
            let path = user + "/"@ + name + "/"@ + rest;
            let uri = words_of(label)[0];
            ||| uri == front + "launchpadcontent.net/"@ + path && find_in(
                uri,
                "launchpadcontent.net/"@,
            ) == Some(front.len() as int) && !occurs(path, "launchpadcontent.net/"@)
            ||| uri == front + "launchpad.net/"@ + path && !occurs(uri, "launchpadcontent.net/"@)
                && find_in(uri, "launchpad.net/"@) == Some(front.len() as int) && !occurs(
                path,
                "launchpad.net/"@,
            )
        }),
    ensures
        user.len() > 0 && name.len() > 0 ==> ppa_of(lower, label) == Some(
            "ppa:"@ + user + "/"@ + name,
        ),
        user.len() == 0 || name.len() == 0 ==> ppa_of(lower, label) is None,
{
    let path = user + "/"@ + name + "/"@ + rest;
    let uri = words_of(label)[0];
    reveal_strlit("launchpadcontent.net/");
    reveal_strlit("launchpad.net/");
    let c = "launchpadcontent.net/"@;
    let o = "launchpad.net/"@;
    if uri == front + c + path && find_in(uri, c) == Some(front.len() as int) && !occurs(path, c) {
        assert(uri.skip(front.len() as int + c.len()) =~= path);
        assert(split_by(path, c) =~= seq![path]);
        assert(after(uri, c) == Some(path));
    } else {
        assert(uri.skip(front.len() as int + o.len()) =~= path);
        assert(split_by(path, o) =~= seq![path]);
        assert(split_by(uri, c) =~= seq![uri]);
        assert(after(uri, c) is None);
        assert(after(uri, o) == Some(path));
    }
    lemma_two_parts(user, name, rest);
}

/// A file's name is what follows its last slash.
pub proof fn law_basename(dir: Seq<char>, name: Seq<char>)
    requires
        !name.contains('/'),
    ensures
        base_of(dir + seq!['/'] + name) == name,
        base_of(name) == name,
{
    law_last_of(dir, name, '/');
    assert((dir + seq!['/'] + name).skip(dir.len() as int + 1) =~= name);
}

/// Which texts name a personal archive.
pub proof fn law_ppa_name(user: Seq<char>, name: Seq<char>, s: Seq<char>)
    requires
        !user.contains('/'),
    ensures
        is_ppa("ppa:"@ + user + seq!['/'] + name) <==> is_ppa_part(user) && is_ppa_part(name),
        !is_ppa("ppa:"@ + user),
        !"ppa:"@.is_prefix_of(s) ==> !is_ppa(s),
        is_ppa_part(s) <==> 0 < s.len() && s.len() < 100 && forall|i: int|
            0 <= i < s.len() ==> ('0' <= #[trigger] s[i] && s[i] <= '9') || ('a' <= s[i] && s[i]
                <= 'z') || ('A' <= s[i] && s[i] <= 'Z') || s[i] == '.' || s[i] == '-' || s[i]
                == '_',
{
    reveal_strlit("/");
    reveal_strlit(".-_");
    assert("/"@ =~= seq!['/']);
    let x = ".-_"@;
    assert(x =~= seq!['.', '-', '_']);
    law_plain(s, x, 100);
    assert forall|c: char| x.contains(c) <==> c == '.' || c == '-' || c == '_' by {
        assert(x[0] == '.' && x[1] == '-' && x[2] == '_');
    }
    let tail = user + seq!['/'] + name;
    assert("ppa:"@ + user + seq!['/'] + name =~= "ppa:"@ + tail);
    law_affixes("ppa:"@, tail, s);
    law_affixes("ppa:"@, user, s);
    law_split_once(user, name, '/');
}

/// Which files may be deleted: plain names of fewer than two hundred
/// characters, without two full stops in a row, with one of two endings.
pub proof fn law_source_file(s: Seq<char>)
    ensures
        is_source_file(s) <==> 0 < s.len() && s.len() < 200 && (forall|i: int|
            0 <= i < s.len() ==> ('0' <= #[trigger] s[i] && s[i] <= '9') || ('a' <= s[i] && s[i]
                <= 'z') || ('A' <= s[i] && s[i] <= 'Z') || s[i] == '.' || s[i] == '_' || s[i] == '-'
                || s[i] == '+' || s[i] == ':') && !occurs(s, ".."@) && (".list"@.is_suffix_of(s)
            || ".sources"@.is_suffix_of(s)),
{
    reveal_strlit("._-+:");
    let x = "._-+:"@;
    assert(x =~= seq!['.', '_', '-', '+', ':']);
    law_plain(s, x, 200);
    assert forall|c: char| x.contains(c) <==> c == '.' || c == '_' || c == '-' || c == '+' || c
        == ':' by {
        assert(x[0] == '.' && x[1] == '_' && x[2] == '-' && x[3] == '+' && x[4] == ':');
    }
}

/// The files of a directory that are read are those with the ending, sorted.
pub proof fn law_matching(paths: Seq<Seq<char>>, ext: Seq<char>, p: Seq<char>)
    ensures
        matching(paths, ext).contains(p) <==> paths.contains(p) && ext.is_suffix_of(p),
        forall|i: int, j: int|
            0 <= i < j < matching(paths, ext).len() ==> !text_lt(
                #[trigger] matching(paths, ext)[j],
                #[trigger] matching(paths, ext)[i],
            ),
        one_line_paths(paths).len() == matching(paths, ".list"@).len() + 1,
        one_line_paths(paths)[0] == "/etc/apt/sources.list"@,
        one_line_paths(paths).skip(1) == matching(paths, ".list"@),
{
    let f = |p: Seq<char>|
        if ext.is_suffix_of(p) {
            Some(p)
        } else {
            None
        };
    let k = kept(paths, f);
    let m = matching(paths, ext);
    assert(m == sorted_by(k, order_of::<PathName>()));
    law_kept_items(paths, f, p);
    law_ranked_sort::<PathName>(k);
    assert(m.contains(p) <==> k.contains(p)) by {
        broadcast use vstd::seq_lib::group_to_multiset_ensures;

        assert(m.to_multiset().count(p) == k.to_multiset().count(p));
    }
    if paths.contains(p) && ext.is_suffix_of(p) {
        let i = choose|i: int| 0 <= i < paths.len() && paths[i] == p;
        assert(f(paths[i]) == Some(p));
    }
    assert forall|i: int, j: int| 0 <= i < j < m.len() implies !text_lt(
        #[trigger] m[j],
        #[trigger] m[i],
    ) by {
        assert(!order_of::<PathName>()(m[j], m[i]));
    }
    assert(one_line_paths(paths).skip(1) =~= matching(paths, ".list"@));
}

/// The entries of the files stand in the order of the files, each under the
/// name of its own.
pub proof fn law_entries(files: Seq<SourceFileView>, f: SourceFileView, i: int)
    ensures
        entries_in(Seq::empty(), false).len() == 0,
        entries_in(Seq::empty(), true).len() == 0,
        entries_of(deb822_of(f.text), f.path).len() == deb822_of(f.text).len(),
        entries_of(rows_of::<EntryLine>(f.text), f.path).len() == rows_of::<EntryLine>(f.text).len(),
        entries_in(files.push(f), false) == entries_in(files, false) + entries_of(
            rows_of::<EntryLine>(f.text),
            f.path,
        ),
        entries_in(files.push(f), true) == entries_in(files, true) + entries_of(
            deb822_of(f.text),
            f.path,
        ),
        0 <= i < deb822_of(f.text).len() ==> entries_of(deb822_of(f.text), f.path)[i] == (
            deb822_of(f.text)[i],
            base_of(f.path),
        ),
        0 <= i < rows_of::<EntryLine>(f.text).len() ==> entries_of(
            rows_of::<EntryLine>(f.text),
            f.path,
        )[i] == (rows_of::<EntryLine>(f.text)[i], base_of(f.path)),
{
    assert(files.push(f).drop_last() =~= files);
}

proof fn lemma_collected_all(entries: Seq<EntryView>, k: int)
    requires
        0 <= k < entries.len(),
        forall|i: int| 0 <= i < entries.len() ==> (#[trigger] entries[i]).0.len() > 0,
    ensures
        exists|i: int|
            0 <= i < collected(entries).len() && key_of(
                (#[trigger] collected(entries)[i]).file,
                collected(entries)[i].label,
            ) == key_of(entries[k].1, entries[k].0),
    decreases entries.len(),
{
    let head = entries.drop_last();
    let e = entries.last();
    let c = collected(entries);
    let rest = collected(head);
    let key = key_of(entries[k].1, entries[k].0);
    assert forall|i: int| 0 <= i < head.len() implies (#[trigger] head[i]).0.len() > 0 by {
        assert(head[i] == entries[i]);
    }
    if k < head.len() || has_key(head, key) {
        let m = if k < head.len() {
            k
        } else {
            choose|m: int| 0 <= m < head.len() && key_of((#[trigger] head[m]).1, head[m].0) == key
        };
        assert(k < head.len() ==> head[k] == entries[k]);
        lemma_collected_all(head, m);
        let i = choose|i: int|
            0 <= i < rest.len() && key_of((#[trigger] rest[i]).file, rest[i].label) == key;
        assert(c[i] == rest[i]);
    } else {
        assert(entries[entries.len() - 1].0.len() > 0);
        assert(c[c.len() - 1] == repo_of(e));
    }
}

/// Every entry that was read is listed, and nothing else is.
pub proof fn law_all_listed(lists: Seq<SourceFileView>, blocks: Seq<SourceFileView>, k: int)
    requires
        forall|i: int|
            0 <= i < (entries_in(lists, false) + entries_in(blocks, true)).len() ==> (
            #[trigger] (entries_in(lists, false) + entries_in(blocks, true))[i]).0.len() > 0,
    ensures
        ({
            let all = entries_in(lists, false) + entries_in(blocks, true);
            let r = repos_of(lists, blocks);
            &&& 0 <= k < all.len() ==> exists|i: int|
                0 <= i < r.len() && (#[trigger] r[i]).file + "|"@ + r[i].label == all[k].1 + "|"@
                    + all[k].0
            &&& 0 <= k < r.len() ==> exists|i: int|
                0 <= i < all.len() && (#[trigger] all[i]).1 + "|"@ + all[i].0 == r[k].file + "|"@
                    + r[k].label
        }),
{
    let all = entries_in(lists, false) + entries_in(blocks, true);
    let s = collected(all);
    let r = repos_of(lists, blocks);
    law_ranked_sort::<Repo>(s);
    law_sort_same_items(s, order_of::<Repo>());
    lemma_collected(all);
    if 0 <= k < all.len() {
        lemma_collected_all(all, k);
        let i = choose|i: int|
            0 <= i < s.len() && key_of((#[trigger] s[i]).file, s[i].label) == key_of(
                all[k].1,
                all[k].0,
            );
        assert(r.contains(s[i])) by {
            broadcast use vstd::seq_lib::group_to_multiset_ensures;

            assert(s.contains(s[i]));
            assert(r.to_multiset().count(s[i]) == s.to_multiset().count(s[i]));
        }
        let j = choose|j: int| 0 <= j < r.len() && r[j] == s[i];
        assert(r[j].file + "|"@ + r[j].label == all[k].1 + "|"@ + all[k].0);
    }
    if 0 <= k < r.len() {
        assert(s.contains(r[k]));
        let i = choose|i: int| 0 <= i < s.len() && s[i] == r[k];
        assert(has_key(all, key_of(s[i].file, s[i].label)));
        let j = choose|j: int|
            0 <= j < all.len() && key_of((#[trigger] all[j]).1, all[j].0) == key_of(
                r[k].file,
                r[k].label,
            );
        assert(all[j].1 + "|"@ + all[j].0 == r[k].file + "|"@ + r[k].label);
    }
}

/// Third-party sources stand ahead of the base ones, each kind by label,
/// whatever its case.
pub proof fn law_listing_order(
    lists: Seq<SourceFileView>,
    blocks: Seq<SourceFileView>,
    i: int,
    j: int,
)
    requires
        0 <= i < j < repos_of(lists, blocks).len(),
    ensures
        ({
            let a = repos_of(lists, blocks)[i];
            let b = repos_of(lists, blocks)[j];
            &&& a.protected ==> b.protected
            &&& a.protected == b.protected ==> !text_lt(lowercase(b.label), lowercase(a.label))
        }),
{
    law_repos_listed(lists, blocks);
    let a = repos_of(lists, blocks)[i];
    let b = repos_of(lists, blocks)[j];
    assert(!order_of::<Repo>()(b, a));
}

/// A file is shared where two listed sources stand in it, or a protected one.
pub proof fn law_shared_file(listing: Seq<RepoView>, file: Seq<char>)
    ensures
        file_is_shared(listing, file) <==> {
            ||| exists|i: int| 0 <= i < listing.len() && (#[trigger] listing[i]).file == file && listing[i].protected
            ||| exists|i: int, j: int|
                0 <= i < j < listing.len() && (#[trigger] listing[i]).file == file && (
                #[trigger] listing[j]).file == file
        },
{
    let f = |r: RepoView|
        if r.file == file {
            Some(r)
        } else {
            None
        };
    let here = kept(listing, f);
    lemma_kept_places(listing, file);
    if file_is_shared(listing, file) {
        if here.len() <= 1 {
            let i = choose|i: int| 0 <= i < here.len() && (#[trigger] here[i]).protected;
            law_kept_items(listing, f, here[i]);
            assert(here.contains(here[i]));
            let k = choose|k: int| 0 <= k < listing.len() && f(#[trigger] listing[k]) == Some(here[i]);
            assert(listing[k].file == file && listing[k].protected);
        }
    }
    if exists|i: int|
        0 <= i < listing.len() && (#[trigger] listing[i]).file == file && listing[i].protected {
        let i = choose|i: int|
            0 <= i < listing.len() && (#[trigger] listing[i]).file == file && listing[i].protected;
        law_kept_items(listing, f, listing[i]);
        assert(f(listing[i]) == Some(listing[i]));
        let k = choose|k: int| 0 <= k < here.len() && here[k] == listing[i];
        assert(here[k].protected);
    }
}

proof fn lemma_kept_places(listing: Seq<RepoView>, file: Seq<char>)
    ensures
        ({
            let here = kept(
                listing,
                |r: RepoView|
                    if r.file == file {
                        Some(r)
                    } else {
                        None
                    },
            );
            &&& here.len() > 0 <==> exists|i: int|
                0 <= i < listing.len() && (#[trigger] listing[i]).file == file
            &&& here.len() > 1 <==> exists|i: int, j: int|
                0 <= i < j < listing.len() && (#[trigger] listing[i]).file == file && (
                #[trigger] listing[j]).file == file
        }),
    decreases listing.len(),
{
    if listing.len() > 0 {
        let rest = listing.skip(1);
        lemma_kept_places(rest, file);
        assert(forall|i: int| 0 <= i < rest.len() ==> #[trigger] rest[i] == listing[i + 1]);
        let later = exists|i: int| 0 <= i < rest.len() && (#[trigger] rest[i]).file == file;
        if later {
            let i = choose|i: int| 0 <= i < rest.len() && (#[trigger] rest[i]).file == file;
            assert(listing[i + 1].file == file);
            if listing[0].file == file {
                assert(listing[0].file == file && listing[i + 1].file == file);
            }
        }
        if exists|i: int, j: int|
            0 <= i < j < rest.len() && (#[trigger] rest[i]).file == file && (#[trigger] rest[j]).file
                == file {
            let (i, j) = choose|i: int, j: int|
                0 <= i < j < rest.len() && (#[trigger] rest[i]).file == file && (
                #[trigger] rest[j]).file == file;
            assert(listing[i + 1].file == file && listing[j + 1].file == file);
        }
        if exists|i: int| 0 <= i < listing.len() && (#[trigger] listing[i]).file == file {
            let i = choose|i: int| 0 <= i < listing.len() && (#[trigger] listing[i]).file == file;
            if i > 0 {
                assert(rest[i - 1].file == file);
            }
        }
        if exists|i: int, j: int|
            0 <= i < j < listing.len() && (#[trigger] listing[i]).file == file && (
            #[trigger] listing[j]).file == file {
            let (i, j) = choose|i: int, j: int|
                0 <= i < j < listing.len() && (#[trigger] listing[i]).file == file && (
                #[trigger] listing[j]).file == file;
            assert(rest[j - 1].file == file);
            if i > 0 {
                assert(rest[i - 1].file == file && rest[j - 1].file == file);
            }
        }
    }
}

/// What a removal comes to.
pub proof fn law_removal(r: RepoView, listing: Option<Seq<RepoView>>)
    ensures
        r.protected ==> removal_of(r, listing) == RemovalView::Refused(
            "That's a base Ubuntu repository and can't be removed here."@,
        ),
        !r.protected && r.ppa_spec is Some && !is_ppa(r.ppa_spec->0) ==> removal_of(r, listing)
            == RemovalView::Refused("Couldn't parse that PPA well enough to remove it safely."@),
        !r.protected && r.ppa_spec is Some && is_ppa(r.ppa_spec->0) ==> removal_of(r, listing)
            == RemovalView::Start(
            seq!["add-apt-repository"@, "-y"@, "--remove"@, r.ppa_spec->0],
        ),
        !r.protected && r.ppa_spec is None && !is_source_file(r.file) ==> removal_of(r, listing)
            == RemovalView::Refused("Couldn't determine how to remove that source safely."@),
        !r.protected && r.ppa_spec is None && is_source_file(r.file) && listing is None
            ==> removal_of(r, listing) == RemovalView::List,
        !r.protected && r.ppa_spec is None && is_source_file(r.file) && listing is Some
            && file_is_shared(listing->0, r.file) ==> removal_of(r, listing) is Refused,
        !r.protected && r.ppa_spec is None && is_source_file(r.file) && listing is Some
            && !file_is_shared(listing->0, r.file) ==> removal_of(r, listing)
            == RemovalView::Start(seq!["rm"@, "-f"@, "/etc/apt/sources.list.d/"@ + r.file]),
{
}

/// While something runs or is read nothing is begun; else a change begins
/// exactly where it is neither refused nor in need of a listing.
pub proof fn law_changes(
    s: RepoStateView,
    spec: Seq<char>,
    repo: RepoView,
    listing: Option<Seq<RepoView>>,
    added: Change,
    removed: Change,
)
    requires
        add_outcome(s, spec, added),
        remove_outcome(s, repo, listing, removed),
    ensures
        s.busy || s.loading <==> added is Idle,
        s.busy || s.loading <==> removed is Idle,
        added is Start <==> !s.busy && !s.loading && is_ppa(spec),
        added is Start ==> views(added->Start_0@) == seq!["add-apt-repository"@, "-y"@, spec],
        removed is Start <==> !s.busy && !s.loading && removal_of(repo, listing) is Start,
        removed is Start ==> views(removed->Start_0@) == removal_of(repo, listing)->Start_0,
        removed is List <==> !s.busy && !s.loading && removal_of(repo, listing) is List,
{
}

/// What is said of a source, a file and the tab is said of the fields.
pub proof fn law_fields(repo: Repo, path: PathName, file: SourceFile, state: RepoState, tab: Repos)
    ensures
        repo@.label == repo.label@,
        repo@.file == repo.file@,
        repo@.ppa_spec == opt(repo.ppa_spec),
        repo@.protected == repo.protected,
        path@ == path.path@,
        file@.path == file.path@,
        file@.text == file.text@,
        state@.loading == state.loading,
        state@.loaded == state.loaded,
        state@.repos == views(state.repos@),
        state@.error == opt(state.error),
        state@.busy == state.busy,
        state@.log == views(state.log@),
        state@.done == state.done,
        state@.ok == state.ok,
        tab@ == tab.state@,
{
}

/// A listing stands for its sources.
pub proof fn law_listing_texts(l: Option<Vec<Repo>>)
    ensures
        l is None ==> listing_view(l) is None,
        l matches Some(v) ==> listing_view(l) == Some(views(v@)),
{
}

/// At first nothing is listed, running or said; a command that starts clears
/// what was said, and leaves the list.
pub proof fn law_at_first(s: RepoStateView, title: Seq<char>)
    ensures
        ({
            let z = RepoStateView::initial();
            let n = s.started(title);
            &&& !z.loading && !z.loaded && !z.busy && !z.done && !z.ok
            &&& z.repos.len() == 0 && z.log.len() == 0 && z.error is None
            &&& n.busy && !n.done && !n.ok && n.error is None
            &&& n.log == seq![title, "Requesting administrator access…"@]
            &&& n.loading == s.loading && n.loaded == s.loaded && n.repos == s.repos
        }),
{
}

/// An entry is listed where its label is not empty and no earlier one has its
/// key; what was listed before it stays.
pub proof fn law_collected(entries: Seq<EntryView>, e: EntryView)
    ensures
        collected(Seq::empty()).len() == 0,
        e.0.len() > 0 && (forall|i: int|
            0 <= i < entries.len() ==> key_of((#[trigger] entries[i]).1, entries[i].0) != key_of(
                e.1,
                e.0,
            )) ==> collected(entries.push(e)) == collected(entries).push(repo_of(e)),
        e.0.len() == 0 ==> collected(entries.push(e)) == collected(entries),
        (exists|i: int|
            0 <= i < entries.len() && key_of((#[trigger] entries[i]).1, entries[i].0) == key_of(
                e.1,
                e.0,
            )) ==> collected(entries.push(e)) == collected(entries),
{
    assert(entries.push(e).drop_last() =~= entries);
}

} // verus!
