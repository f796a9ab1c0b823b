//! Text primitives over character sequences.
//!
//! Executable code reads a string into a slice of characters once and then
//! works on subslices of it.

use vstd::prelude::*;
use vstd::string::*;

verus! {

/// `String::push` appends one character.
pub assume_specification[ String::push ](s: &mut String, c: char)
    ensures
        final(s)@ == old(s)@.push(c),
;

/// What `f` gives for the items of `s`, in order, without the items for which
/// it gives nothing.
pub open spec fn kept<A, B>(s: Seq<A>, f: spec_fn(A) -> Option<B>) -> Seq<B>
    decreases s.len(),
{
    if s.len() == 0 {
        Seq::empty()
    } else {
        match f(s[0]) {
            Some(b) => seq![b] + kept(s.skip(1), f),
            None => kept(s.skip(1), f),
        }
    }
}

/// The views of a sequence of values, one for one.
pub open spec fn views<T: View>(s: Seq<T>) -> Seq<T::V> {
    s.map_values(|x: T| x@)
}

/// The view of an optional value.
pub open spec fn opt<T: View>(o: Option<T>) -> Option<T::V> {
    match o {
        Some(x) => Some(x@),
        None => None,
    }
}

/// The view of a result.
pub open spec fn res<T: View, E: View>(r: Result<T, E>) -> Result<T::V, E::V> {
    match r {
        Ok(x) => Ok(x@),
        Err(e) => Err(e@),
    }
}

/// One step of a loop that keeps what `f` gives: what is kept already, then
/// what the rest gives.
pub proof fn lemma_kept_step<A, B>(done: Seq<B>, s: Seq<A>, i: int, f: spec_fn(A) -> Option<B>)
    requires
        0 <= i < s.len(),
    ensures
        done + kept(s.skip(i), f) == (match f(s[i]) {
            Some(b) => done.push(b) + kept(s.skip(i + 1), f),
            None => done + kept(s.skip(i + 1), f),
        }),
{
    assert(s.skip(i).skip(1) =~= s.skip(i + 1));
    if let Some(b) = f(s[i]) {
        assert(done + (seq![b] + kept(s.skip(i + 1), f)) =~= done.push(b) + kept(s.skip(i + 1), f));
    }
}

/// Before and after such a loop.
pub proof fn lemma_kept_ends<A, B>(done: Seq<B>, s: Seq<A>, f: spec_fn(A) -> Option<B>)
    ensures
        Seq::<B>::empty() + kept(s.skip(0), f) == kept(s, f),
        done + kept(s.skip(s.len() as int), f) == done,
{
    assert(s.skip(0) =~= s);
    assert(Seq::<B>::empty() + kept(s, f) =~= kept(s, f));
    assert(done + Seq::<B>::empty() =~= done);
}

/// Appending a value appends its view.
pub broadcast proof fn lemma_views_push<T: View>(s: Seq<T>, x: T)
    ensures
        #[trigger] views(s.push(x)) == views(s).push(x@),
{
    assert(views(s.push(x)) =~= views(s).push(x@));
}

/// The characters of a string.
pub fn to_chars(s: &str) -> (r: Vec<char>)
    ensures
        r@ == s@,
{
    let mut r: Vec<char> = Vec::new();
    for c in it: s.chars()
        invariant
            it.seq() == s@,
            r@ == s@.take(it.index() as int),
    {
        r.push(c);
        assert(r@ =~= s@.take(it.index() as int + 1));
    }
    assert(s@.take(s@.len() as int) =~= s@);
    r
}

/// A string made of the given characters.
pub fn to_text(s: &[char]) -> (r: String)
    ensures
        r@ == s@,
{
    let mut r = String::new();
    let mut i: usize = 0;
    while i < s.len()
        invariant
            i <= s@.len(),
            r@ == s@.take(i as int),
        decreases s@.len() - i,
    {
        r.push(s[i]);
        i += 1;
        assert(s@.take(i as int) =~= s@.take(i as int - 1).push(s@[i as int - 1]));
    }
    assert(s@.take(i as int) =~= s@);
    r
}

// --- character classes ------------------------------------------------------

/// Unicode `White_Space`: what separates words and is trimmed.
pub open spec fn is_space(c: char) -> bool {
    ||| '\u{9}' <= c && c <= '\u{d}'
    ||| c == '\u{20}'
    ||| c == '\u{85}'
    ||| c == '\u{a0}'
    ||| c == '\u{1680}'
    ||| '\u{2000}' <= c && c <= '\u{200a}'
    ||| c == '\u{2028}'
    ||| c == '\u{2029}'
    ||| c == '\u{202f}'
    ||| c == '\u{205f}'
    ||| c == '\u{3000}'
}

/// An ASCII decimal digit.
pub open spec fn is_digit(c: char) -> bool {
    '0' <= c && c <= '9'
}

/// A lowercase ASCII letter.
pub open spec fn is_lower(c: char) -> bool {
    'a' <= c && c <= 'z'
}

/// An ASCII letter or digit.
pub open spec fn is_alnum(c: char) -> bool {
    is_digit(c) || is_lower(c) || ('A' <= c && c <= 'Z')
}

pub fn space(c: char) -> (r: bool)
    ensures
        r == is_space(c),
{
    ('\u{9}' <= c && c <= '\u{d}') || c == '\u{20}' || c == '\u{85}' || c == '\u{a0}' || c
        == '\u{1680}' || ('\u{2000}' <= c && c <= '\u{200a}') || c == '\u{2028}' || c == '\u{2029}'
        || c == '\u{202f}' || c == '\u{205f}' || c == '\u{3000}'
}

pub fn digit(c: char) -> (r: bool)
    ensures
        r == is_digit(c),
{
    '0' <= c && c <= '9'
}

pub fn lower(c: char) -> (r: bool)
    ensures
        r == is_lower(c),
{
    'a' <= c && c <= 'z'
}

pub fn alnum(c: char) -> (r: bool)
    ensures
        r == is_alnum(c),
{
    digit(c) || lower(c) || ('A' <= c && c <= 'Z')
}

// --- comparison -------------------------------------------------------------

/// Whether two character slices hold the same text.
pub fn same(a: &[char], b: &[char]) -> (r: bool)
    ensures
        r == (a@ == b@),
{
    if a.len() != b.len() {
        return false;
    }
    let mut i: usize = 0;
    while i < a.len()
        invariant
            i <= a@.len() == b@.len(),
            forall|k: int| 0 <= k < i ==> a@[k] == b@[k],
        decreases a@.len() - i,
    {
        if a[i] != b[i] {
            return false;
        }
        i += 1;
    }
    assert(a@ =~= b@);
    true
}

/// Whether a character slice holds the text of `lit`.
pub fn is_text(s: &[char], lit: &str) -> (r: bool)
    ensures
        r == (s@ == lit@),
{
    let l = to_chars(lit);
    same(s, &l)
}

/// Whether two strings hold the same text.
pub fn same_text(a: &str, b: &str) -> (r: bool)
    ensures
        r == (a@ == b@),
{
    let x = to_chars(a);
    is_text(&x, b)
}

pub fn starts_with(s: &[char], prefix: &str) -> (r: bool)
    ensures
        r == prefix@.is_prefix_of(s@),
{
    let p = to_chars(prefix);
    if s.len() < p.len() {
        return false;
    }
    let head = vstd::slice::slice_subrange(s, 0, p.len());
    same(&p, head)
}

pub fn ends_with(s: &[char], suffix: &str) -> (r: bool)
    ensures
        r == suffix@.is_suffix_of(s@),
{
    let p = to_chars(suffix);
    if s.len() < p.len() {
        return false;
    }
    let tail = vstd::slice::slice_subrange(s, s.len() - p.len(), s.len());
    same(&p, tail)
}

/// What follows `prefix`, when `s` begins with it.
pub open spec fn without_prefix(s: Seq<char>, prefix: Seq<char>) -> Option<Seq<char>> {
    if prefix.is_prefix_of(s) {
        Some(s.skip(prefix.len() as int))
    } else {
        None
    }
}

/// What precedes `suffix`, when `s` ends with it.
pub open spec fn without_suffix(s: Seq<char>, suffix: Seq<char>) -> Option<Seq<char>> {
    if suffix.is_suffix_of(s) {
        Some(s.take(s.len() - suffix.len()))
    } else {
        None
    }
}

pub fn strip_prefix<'a>(s: &'a [char], prefix: &str) -> (r: Option<&'a [char]>)
    ensures
        opt(r) == without_prefix(s@, prefix@),
{
    if !starts_with(s, prefix) {
        return None;
    }
    let n = to_chars(prefix).len();
    Some(vstd::slice::slice_subrange(s, n, s.len()))
}

pub fn strip_suffix<'a>(s: &'a [char], suffix: &str) -> (r: Option<&'a [char]>)
    ensures
        opt(r) == without_suffix(s@, suffix@),
{
    if !ends_with(s, suffix) {
        return None;
    }
    let n = to_chars(suffix).len();
    Some(vstd::slice::slice_subrange(s, 0, s.len() - n))
}

// --- names ------------------------------------------------------------------

/// Between one and `limit - 1` characters, each an ASCII letter, an ASCII
/// digit or one of `extra`. With ASCII `extra` this bounds the bytes too.
pub open spec fn is_plain(s: Seq<char>, extra: Seq<char>, limit: int) -> bool {
    &&& 0 < s.len() < limit
    &&& forall|i: int| 0 <= i < s.len() ==> is_alnum(#[trigger] s[i]) || extra.contains(s[i])
}

/// Whether `c` occurs in `set`.
pub fn one_of(c: char, set: &str) -> (r: bool)
    ensures
        r == set@.contains(c),
{
    let v = to_chars(set);
    let mut i: usize = 0;
    while i < v.len()
        invariant
            v@ == set@,
            i <= v@.len(),
            forall|k: int| 0 <= k < i ==> v@[k] != c,
        decreases v@.len() - i,
    {
        if v[i] == c {
            return true;
        }
        i += 1;
    }
    false
}

pub fn plain(s: &[char], extra: &str, limit: usize) -> (r: bool)
    ensures
        r == is_plain(s@, extra@, limit as int),
{
    if s.len() == 0 || s.len() >= limit {
        return false;
    }
    let mut i: usize = 0;
    while i < s.len()
        invariant
            i <= s@.len(),
            forall|k: int| 0 <= k < i ==> is_alnum(#[trigger] s@[k]) || extra@.contains(s@[k]),
        decreases s@.len() - i,
    {
        if !alnum(s[i]) && !one_of(s[i], extra) {
            return false;
        }
        i += 1;
    }
    true
}

/// A character by which a POSIX shell separates words or commands, quotes,
/// substitutes, redirects or expands file names.
pub open spec fn shell_special(c: char) -> bool {
    is_space(c) || " |&;<>()$`\\\"'*?[]{}#!=%"@.contains(c)
}

/// Nothing in the word `s` is special to the shell. In front, a `~` is too: it
/// stands for a home directory there.
pub open spec fn shell_inert(s: Seq<char>) -> bool {
    &&& s.len() > 0 ==> s[0] != '~'
    &&& forall|i: int| 0 <= i < s.len() ==> !shell_special(#[trigger] s[i])
}

/// A plain name whose extra characters are inert, and which does not begin
/// with a `~`, is inert as a whole.
pub proof fn lemma_plain_is_inert(s: Seq<char>, extra: Seq<char>, limit: int)
    requires
        is_plain(s, extra, limit),
        shell_inert(extra),
        extra.contains('~') ==> s[0] != '~',
    ensures
        shell_inert(s),
{
    reveal_strlit(" |&;<>()$`\\\"'*?[]{}#!=%");
    assert forall|i: int| 0 <= i < s.len() implies !shell_special(#[trigger] s[i]) by {
        let c = s[i];
        if extra.contains(c) {
            let k = choose|k: int| 0 <= k < extra.len() && extra[k] == c;
            assert(!shell_special(extra[k]));
        } else {
            assert(is_alnum(c));
        }
    }
}

// --- outside text functions -------------------------------------------------

/// The Unicode lowercase form of a text.
pub uninterp spec fn lowercase(s: Seq<char>) -> Seq<char>;

/// An ASCII capital as its small letter, any other character as it is.
pub open spec fn folded_char(c: char) -> char {
    if 'A' <= c && c <= 'Z' {
        (c as u32 + 32) as char
    } else {
        c
    }
}

/// A text with its ASCII capitals as small letters.
pub open spec fn folded(s: Seq<char>) -> Seq<char> {
    s.map_values(|c: char| folded_char(c))
}

/// Whether every character is an ASCII one.
pub open spec fn all_ascii(s: Seq<char>) -> bool {
    forall|i: int| 0 <= i < s.len() ==> #[trigger] s[i] as u32 <= 0x7f
}

/// `str::to_lowercase` gives the lowercase form of its argument; of an ASCII
/// text that is the text with small letters for its capitals. Which characters
/// the form of any other text holds is left to Unicode's tables.
pub assume_specification[ str::to_lowercase ](s: &str) -> (r: String)
    ensures
        r@ == lowercase(s@),
        all_ascii(s@) ==> r@ == folded(s@),
;

/// The quoted and escaped form in which a text is shown for inspection.
pub uninterp spec fn quoted(s: Seq<char>) -> Seq<char>;

/// The `Debug` formatting of `str` gives the quoted form of its argument.
/// Which characters are escaped is left to Unicode's tables.
#[verifier::external_body]
pub(crate) fn quote(s: &str) -> (r: String)
    ensures
        r@ == quoted(s@),
{
    format!("{s:?}")
}

// --- trimming ---------------------------------------------------------------

/// `s` without its leading whitespace.
pub open spec fn trimmed_start(s: Seq<char>) -> Seq<char>
    decreases s.len(),
{
    if s.len() > 0 && is_space(s[0]) {
        trimmed_start(s.skip(1))
    } else {
        s
    }
}

/// `s` without its trailing whitespace.
pub open spec fn trimmed_end(s: Seq<char>) -> Seq<char>
    decreases s.len(),
{
    if s.len() > 0 && is_space(s.last()) {
        trimmed_end(s.drop_last())
    } else {
        s
    }
}

/// `s` without leading and trailing whitespace.
pub open spec fn trimmed(s: Seq<char>) -> Seq<char> {
    trimmed_end(trimmed_start(s))
}

pub fn trim<'a>(s: &'a [char]) -> (r: &'a [char])
    ensures
        r@ == trimmed(s@),
{
    let mut i: usize = 0;
    assert(s@.skip(0) =~= s@);
    while i < s.len() && space(s[i])
        invariant
            i <= s@.len(),
            trimmed_start(s@) == trimmed_start(s@.skip(i as int)),
        decreases s@.len() - i,
    {
        assert(s@.skip(i as int).skip(1) =~= s@.skip(i as int + 1));
        i += 1;
    }
    assert(trimmed_start(s@) == s@.skip(i as int));
    let ghost t = s@.skip(i as int);
    let mut j: usize = s.len();
    assert(s@.subrange(i as int, j as int) =~= t);
    while j > i && space(s[j - 1])
        invariant
            i <= j <= s@.len(),
            trimmed_end(t) == trimmed_end(s@.subrange(i as int, j as int)),
        decreases j,
    {
        assert(s@.subrange(i as int, j as int).drop_last() =~= s@.subrange(i as int, j as int - 1));
        j -= 1;
    }
    vstd::slice::slice_subrange(s, i, j)
}

// --- words and lines --------------------------------------------------------

/// How many characters precede the first whitespace.
pub open spec fn word_len(s: Seq<char>) -> nat
    decreases s.len(),
{
    if s.len() == 0 || is_space(s[0]) {
        0
    } else {
        1 + word_len(s.skip(1))
    }
}

pub proof fn lemma_word_len(s: Seq<char>)
    ensures
        word_len(s) <= s.len(),
        s.len() > 0 && !is_space(s[0]) ==> word_len(s) > 0,
    decreases s.len(),
{
    if s.len() != 0 && !is_space(s[0]) {
        lemma_word_len(s.skip(1));
    }
}

/// The maximal runs of non-whitespace in `s`, in order.
pub open spec fn words_of(s: Seq<char>) -> Seq<Seq<char>>
    decreases s.len(),
{
    if s.len() == 0 {
        Seq::empty()
    } else if is_space(s[0]) {
        words_of(s.skip(1))
    } else {
        let n = word_len(s) as int;
        if 0 < n <= s.len() {
            seq![s.take(n)] + words_of(s.skip(n))
        } else {
            Seq::empty()
        }
    }
}

/// Up to its first whitespace, a text is a word.
proof fn lemma_word_len_ends(a: Seq<char>, b: Seq<char>)
    requires
        forall|i: int| 0 <= i < a.len() ==> !is_space(#[trigger] a[i]),
        b.len() > 0 ==> is_space(b[0]),
    ensures
        word_len(a + b) == a.len(),
    decreases a.len(),
{
    let s = a + b;
    if a.len() > 0 {
        assert(s[0] == a[0]);
        assert(s.skip(1) =~= a.skip(1) + b);
        assert forall|i: int| 0 <= i < a.skip(1).len() implies !is_space(#[trigger] a.skip(1)[i]) by {
            assert(a.skip(1)[i] == a[i + 1]);
        }
        lemma_word_len_ends(a.skip(1), b);
    } else {
        assert(s =~= b);
    }
}

proof fn lemma_trimmed_end_keeps(a: Seq<char>, b: Seq<char>) -> (n: int)
    requires
        a.len() > 0,
        !is_space(a.last()),
    ensures
        0 <= n <= b.len(),
        trimmed_end(a + b) == a + b.take(n),
    decreases b.len(),
{
    let s = a + b;
    if b.len() > 0 && is_space(b.last()) {
        assert(s.last() == b.last());
        assert(s.drop_last() =~= a + b.drop_last());
        let n = lemma_trimmed_end_keeps(a, b.drop_last());
        assert(b.drop_last().take(n) =~= b.take(n));
        n
    } else {
        assert(s.last() == if b.len() > 0 {
            b.last()
        } else {
            a.last()
        });
        assert(s =~= a + b.take(b.len() as int));
        b.len() as int
    }
}

/// Of a word with whitespace and anything else behind it, trimmed, the first
/// word is that word.
pub proof fn lemma_first_word(a: Seq<char>, b: Seq<char>)
    requires
        a.len() > 0,
        forall|i: int| 0 <= i < a.len() ==> !is_space(#[trigger] a[i]),
        b.len() > 0 ==> is_space(b[0]),
    ensures
        words_of(trimmed(a + b)).len() > 0,
        words_of(trimmed(a + b))[0] == a,
{
    assert((a + b)[0] == a[0]);
    assert(a.last() == a[a.len() - 1]);
    let n = lemma_trimmed_end_keeps(a, b);
    let t = a + b.take(n);
    assert(trimmed(a + b) == t);
    lemma_word_len_ends(a, b.take(n));
    assert(t[0] == a[0]);
    assert(t.take(a.len() as int) =~= a);
}

pub fn words<'a>(s: &'a [char]) -> (r: Vec<&'a [char]>)
    ensures
        views(r@) == words_of(s@),
{
    let mut r: Vec<&'a [char]> = Vec::new();
    let mut i: usize = 0;
    assert(s@.skip(0) =~= s@);
    assert(views(r@) + words_of(s@) =~= words_of(s@));
    while i < s.len()
        invariant
            i <= s@.len(),
            views(r@) + words_of(s@.skip(i as int)) == words_of(s@),
        decreases s@.len() - i,
    {
        let ghost rest = s@.skip(i as int);
        if space(s[i]) {
            assert(rest.skip(1) =~= s@.skip(i as int + 1));
            i += 1;
        } else {
            let start = i;
            while i < s.len() && !space(s[i])
                invariant
                    start <= i <= s@.len(),
                    rest == s@.skip(start as int),
                    word_len(rest) == (i - start) + word_len(s@.skip(i as int)),
                decreases s@.len() - i,
            {
                assert(s@.skip(i as int).skip(1) =~= s@.skip(i as int + 1));
                i += 1;
            }
            proof {
                lemma_word_len(rest);
            }
            let w = vstd::slice::slice_subrange(s, start, i);
            let ghost before = r@;
            r.push(w);
            let ghost n = (i - start) as int;
            assert(w@ =~= rest.take(n));
            assert(rest.skip(n) =~= s@.skip(i as int));
            assert(views(r@) =~= views(before).push(w@));
            assert(views(r@) + words_of(s@.skip(i as int)) =~= views(before) + (seq![rest.take(n)]
                + words_of(rest.skip(n))));
        }
    }
    assert(s@.skip(i as int).len() == 0);
    assert(views(r@) + words_of(s@.skip(i as int)) =~= views(r@));
    r
}

/// How many characters precede the first `c`; all of them when there is none.
pub open spec fn run_before(s: Seq<char>, c: char) -> nat
    decreases s.len(),
{
    if s.len() == 0 || s[0] == c {
        0
    } else {
        1 + run_before(s.skip(1), c)
    }
}

pub proof fn lemma_run_before(s: Seq<char>, c: char)
    ensures
        run_before(s, c) <= s.len(),
        run_before(s, c) < s.len() ==> s[run_before(s, c) as int] == c,
        forall|k: int| 0 <= k < run_before(s, c) ==> s[k] != c,
    decreases s.len(),
{
    if s.len() != 0 && s[0] != c {
        lemma_run_before(s.skip(1), c);
        assert forall|k: int| 0 <= k < run_before(s, c) implies s[k] != c by {
            if k > 0 {
                assert(s[k] == s.skip(1)[k - 1]);
            }
        }
    }
}

/// Index of the first `c` at or after `from`, or the length of `s`.
fn next_char(s: &[char], from: usize, c: char) -> (r: usize)
    requires
        from <= s@.len(),
    ensures
        from <= r <= s@.len(),
        r - from == run_before(s@.skip(from as int), c),
{
    let mut i: usize = from;
    while i < s.len() && s[i] != c
        invariant
            from <= i <= s@.len(),
            run_before(s@.skip(from as int), c) == (i - from) + run_before(s@.skip(i as int), c),
        decreases s@.len() - i,
    {
        assert(s@.skip(i as int).skip(1) =~= s@.skip(i as int + 1));
        i += 1;
    }
    i
}

/// A line without the carriage return that ends it, if one does.
pub open spec fn without_cr(s: Seq<char>) -> Seq<char> {
    if s.len() > 0 && s.last() == '\r' {
        s.drop_last()
    } else {
        s
    }
}

/// The lines of `s`: each ends with a line feed, or a carriage return and a
/// line feed, neither of which belongs to it; the last may lack its ending.
pub open spec fn lines_of(s: Seq<char>) -> Seq<Seq<char>>
    decreases s.len(),
{
    if s.len() == 0 {
        Seq::empty()
    } else {
        let n = run_before(s, '\n') as int;
        if n < s.len() {
            seq![without_cr(s.take(n))] + lines_of(s.skip(n + 1))
        } else {
            seq![s]
        }
    }
}

pub fn lines<'a>(s: &'a [char]) -> (r: Vec<&'a [char]>)
    ensures
        views(r@) == lines_of(s@),
{
    let mut r: Vec<&'a [char]> = Vec::new();
    let mut i: usize = 0;
    assert(s@.skip(0) =~= s@);
    assert(views(r@) + lines_of(s@) =~= lines_of(s@));
    while i < s.len()
        invariant
            i <= s@.len(),
            views(r@) + lines_of(s@.skip(i as int)) == lines_of(s@),
        decreases s@.len() - i,
    {
        let ghost rest = s@.skip(i as int);
        let ghost before = r@;
        let n = next_char(s, i, '\n');
        let ghost len = (n - i) as int;
        if n < s.len() {
            let end = if n > i && s[n - 1] == '\r' {
                n - 1
            } else {
                n
            };
            let line = vstd::slice::slice_subrange(s, i, end);
            assert(line@ =~= without_cr(rest.take(len)));
            r.push(line);
            assert(views(r@) =~= views(before).push(line@));
            assert(rest.skip(len + 1) =~= s@.skip(n as int + 1));
            assert(views(r@) + lines_of(rest.skip(len + 1)) =~= views(before) + (
            seq![without_cr(rest.take(len))] + lines_of(rest.skip(len + 1))));
            i = n + 1;
        } else {
            let line = vstd::slice::slice_subrange(s, i, n);
            assert(line@ =~= rest);
            r.push(line);
            assert(views(r@) =~= views(before).push(line@));
            assert(views(r@) =~= views(before) + seq![rest]);
            i = n;
            assert(s@.skip(i as int).len() == 0);
            assert(views(r@) + lines_of(s@.skip(i as int)) =~= views(r@));
        }
    }
    assert(s@.skip(i as int).len() == 0);
    assert(views(r@) + lines_of(s@.skip(i as int)) =~= views(r@));
    r
}

// --- searching and splitting ------------------------------------------------

/// Where `pat` first occurs in `s`.
pub open spec fn find_in(s: Seq<char>, pat: Seq<char>) -> Option<int>
    decreases s.len(),
{
    if pat.is_prefix_of(s) {
        Some(0)
    } else if s.len() == 0 {
        None
    } else {
        match find_in(s.skip(1), pat) {
            Some(i) => Some(i + 1),
            None => None,
        }
    }
}

/// Whether `pat` occurs in `s`.
pub open spec fn occurs(s: Seq<char>, pat: Seq<char>) -> bool {
    find_in(s, pat) is Some
}

pub proof fn lemma_find_in(s: Seq<char>, pat: Seq<char>)
    ensures
        find_in(s, pat) matches Some(i) ==> {
            &&& 0 <= i
            &&& i + pat.len() <= s.len()
            &&& s.subrange(i, i + pat.len()) == pat
        },
    decreases s.len(),
{
    if !pat.is_prefix_of(s) && s.len() != 0 {
        lemma_find_in(s.skip(1), pat);
        if let Some(i) = find_in(s.skip(1), pat) {
            assert(s.subrange(i + 1, i + 1 + pat.len()) =~= s.skip(1).subrange(i, i + pat.len()));
        }
    }
}

/// A pattern is found where it first stands.
pub proof fn lemma_find_first(s: Seq<char>, pat: Seq<char>, at: int)
    requires
        0 <= at <= s.len(),
        pat.is_prefix_of(s.skip(at)),
        forall|i: int| 0 <= i < at ==> !pat.is_prefix_of(#[trigger] s.skip(i)),
    ensures
        find_in(s, pat) == Some(at),
    decreases s.len(),
{
    assert(s.skip(0) =~= s);
    if at > 0 {
        let rest = s.skip(1);
        assert(rest.skip(at - 1) =~= s.skip(at));
        assert forall|i: int| 0 <= i < at - 1 implies !pat.is_prefix_of(#[trigger] rest.skip(i)) by {
            assert(rest.skip(i) =~= s.skip(i + 1));
        }
        lemma_find_first(rest, pat, at - 1);
    }
}

/// A pattern of one character is found where that character first stands.
pub proof fn lemma_find_char(s: Seq<char>, pat: Seq<char>)
    requires
        pat.len() == 1,
    ensures
        find_in(s, pat) == (if run_before(s, pat[0]) < s.len() {
            Some(run_before(s, pat[0]) as int)
        } else {
            None::<int>
        }),
    decreases s.len(),
{
    if s.len() > 0 {
        if s[0] == pat[0] {
            assert(pat =~= s.subrange(0, 1));
        } else {
            assert(!pat.is_prefix_of(s)) by {
                if pat.is_prefix_of(s) {
                    assert(s.subrange(0, 1)[0] == pat[0]);
                }
            }
            lemma_find_char(s.skip(1), pat);
        }
    }
}

/// How a character first stands in two texts one after the other.
pub proof fn lemma_run_before_append(a: Seq<char>, b: Seq<char>, c: char)
    ensures
        run_before(a + b, c) == (if run_before(a, c) < a.len() {
            run_before(a, c)
        } else {
            a.len() + run_before(b, c)
        }),
    decreases a.len(),
{
    lemma_run_before(a, c);
    if a.len() == 0 {
        assert(a + b =~= b);
    } else if a[0] != c {
        lemma_run_before_append(a.skip(1), b, c);
        assert((a + b).skip(1) =~= a.skip(1) + b);
        lemma_run_before(a.skip(1), c);
    }
}

/// A text without `c` has no place where it stands.
pub proof fn lemma_run_before_absent(s: Seq<char>, c: char)
    requires
        !s.contains(c),
    ensures
        run_before(s, c) == s.len(),
{
    lemma_run_before(s, c);
    if run_before(s, c) < s.len() {
        assert(s[run_before(s, c) as int] == c);
    }
}

/// No line of a text holds a line feed.
pub proof fn lemma_lines_whole(s: Seq<char>)
    ensures
        forall|i: int| 0 <= i < lines_of(s).len() ==> !(#[trigger] lines_of(s)[i]).contains('\n'),
    decreases s.len(),
{
    if s.len() > 0 {
        let n = run_before(s, '\n') as int;
        lemma_run_before(s, '\n');
        if n < s.len() {
            lemma_lines_whole(s.skip(n + 1));
            let rest = lines_of(s.skip(n + 1));
            assert forall|i: int| 0 <= i < lines_of(s).len() implies !(#[trigger] lines_of(
                s,
            )[i]).contains('\n') by {
                if i > 0 {
                    assert(lines_of(s)[i] == rest[i - 1]);
                } else {
                    let l = without_cr(s.take(n));
                    assert(lines_of(s)[0] == l);
                    if l.contains('\n') {
                        let k = choose|k: int| 0 <= k < l.len() && l[k] == '\n';
                        assert(s[k] == '\n');
                    }
                }
            }
        } else {
            if s.contains('\n') {
                let k = choose|k: int| 0 <= k < s.len() && s[k] == '\n';
                assert(s[k] != '\n');
            }
        }
    }
}

/// The lines of a text that begins with a whole line.
pub proof fn lemma_lines_first(a: Seq<char>, rest: Seq<char>)
    requires
        !a.contains('\n'),
    ensures
        lines_of(a + seq!['\n'] + rest) == seq![without_cr(a)] + lines_of(rest),
{
    let s = a + seq!['\n'] + rest;
    lemma_run_before_absent(a, '\n');
    assert(s =~= a + (seq!['\n'] + rest));
    lemma_run_before_append(a, seq!['\n'] + rest, '\n');
    assert(run_before(seq!['\n'] + rest, '\n') == 0);
    assert(s.take(a.len() as int) =~= a);
    assert(s.skip(a.len() as int + 1) =~= rest);
}

pub fn find(s: &[char], pat: &[char]) -> (r: Option<usize>)
    ensures
        (match r {
            Some(i) => Some(i as int),
            None => None,
        }) == find_in(s@, pat@),
        r matches Some(i) ==> i + pat@.len() <= s@.len(),
{
    let mut i: usize = 0;
    assert(s@.skip(0) =~= s@);
    while i <= s.len()
        invariant
            i <= s@.len() + 1,
            i == s@.len() + 1 ==> find_in(s@, pat@) is None,
            i <= s@.len() ==> find_in(s@, pat@) == (match find_in(s@.skip(i as int), pat@) {
                Some(k) => Some(k + i),
                None => None,
            }),
        decreases s@.len() + 1 - i,
    {
        let ghost rest = s@.skip(i as int);
        if pat.len() <= s.len() - i {
            let here = vstd::slice::slice_subrange(s, i, i + pat.len());
            assert(here@ =~= rest.subrange(0, pat@.len() as int));
            if same(pat, here) {
                return Some(i);
            }
        }
        assert(!pat@.is_prefix_of(rest));
        if i < s.len() {
            assert(rest.skip(1) =~= s@.skip(i as int + 1));
        } else {
            return None;
        }
        i += 1;
    }
    None
}

pub fn contains(s: &[char], pat: &str) -> (r: bool)
    ensures
        r == occurs(s@, pat@),
{
    let p = to_chars(pat);
    find(s, &p).is_some()
}

/// The parts of `s` before and after the first `pat`.
pub open spec fn split_once_at(s: Seq<char>, pat: Seq<char>) -> Option<(Seq<char>, Seq<char>)> {
    match find_in(s, pat) {
        Some(i) => Some((s.take(i), s.skip(i + pat.len()))),
        None => None,
    }
}

pub fn split_once<'a>(s: &'a [char], pat: &str) -> (r: Option<(&'a [char], &'a [char])>)
    ensures
        opt(r) == split_once_at(s@, pat@),
{
    let p = to_chars(pat);
    match find(s, &p) {
        Some(i) => {
            let n = s.len();
            let a = vstd::slice::slice_subrange(s, 0, i);
            let b = vstd::slice::slice_subrange(s, i + p.len(), n);
            assert(a@ =~= s@.take(i as int));
            assert(b@ =~= s@.skip(i as int + p@.len()));
            Some((a, b))
        },
        None => None,
    }
}

/// The parts of `s` between successive occurrences of `pat`, at most `limit`
/// of them; the last part keeps what is left.
pub open spec fn split_at_most(s: Seq<char>, pat: Seq<char>, limit: nat) -> Seq<Seq<char>>
    decreases limit,
{
    if limit == 0 {
        Seq::empty()
    } else if limit == 1 {
        seq![s]
    } else {
        match split_once_at(s, pat) {
            Some((a, b)) => seq![a] + split_at_most(b, pat, (limit - 1) as nat),
            None => seq![s],
        }
    }
}

/// The parts of `s` between successive occurrences of `pat`, which is not
/// empty.
pub open spec fn split_by(s: Seq<char>, pat: Seq<char>) -> Seq<Seq<char>>
    decreases s.len(),
{
    match split_once_at(s, pat) {
        Some((a, b)) => if b.len() < s.len() {
            seq![a] + split_by(b, pat)
        } else {
            seq![s]
        },
        None => seq![s],
    }
}

pub fn splitn<'a>(s: &'a [char], limit: usize, pat: &str) -> (r: Vec<&'a [char]>)
    ensures
        views(r@) == split_at_most(s@, pat@, limit as nat),
{
    let mut r: Vec<&'a [char]> = Vec::new();
    if limit == 0 {
        assert(views(r@) =~= Seq::<Seq<char>>::empty());
        return r;
    }
    let mut rest: &'a [char] = s;
    let mut left: usize = limit;
    assert(views(r@) + split_at_most(s@, pat@, limit as nat) =~= split_at_most(
        s@,
        pat@,
        limit as nat,
    ));
    while left > 1
        invariant
            left >= 1,
            views(r@) + split_at_most(rest@, pat@, left as nat) == split_at_most(
                s@,
                pat@,
                limit as nat,
            ),
        decreases left,
    {
        let ghost before = r@;
        let ghost whole = rest@;
        match split_once(rest, pat) {
            Some((a, b)) => {
                r.push(a);
                assert(views(r@) =~= views(before).push(a@));
                assert(views(r@) + split_at_most(b@, pat@, (left - 1) as nat) =~= views(before) + (
                seq![a@] + split_at_most(b@, pat@, (left - 1) as nat)));
                rest = b;
                left -= 1;
            },
            None => {
                r.push(rest);
                assert(views(r@) =~= views(before) + seq![whole]);
                return r;
            },
        }
    }
    let ghost before = r@;
    r.push(rest);
    assert(views(r@) =~= views(before) + seq![rest@]);
    r
}

pub fn split<'a>(s: &'a [char], pat: &str) -> (r: Vec<&'a [char]>)
    requires
        pat@.len() > 0,
    ensures
        views(r@) == split_by(s@, pat@),
{
    let mut r: Vec<&'a [char]> = Vec::new();
    let mut rest: &'a [char] = s;
    assert(views(r@) + split_by(s@, pat@) =~= split_by(s@, pat@));
    loop
        invariant
            pat@.len() > 0,
            views(r@) + split_by(rest@, pat@) == split_by(s@, pat@),
        decreases rest@.len(),
    {
        let ghost before = r@;
        let ghost whole = rest@;
        match split_once(rest, pat) {
            Some((a, b)) => {
                proof {
                    lemma_find_in(whole, pat@);
                }
                r.push(a);
                assert(views(r@) =~= views(before).push(a@));
                assert(views(r@) + split_by(b@, pat@) =~= views(before) + (seq![a@] + split_by(
                    b@,
                    pat@,
                )));
                rest = b;
            },
            None => {
                r.push(rest);
                assert(views(r@) =~= views(before) + seq![whole]);
                return r;
            },
        }
    }
}

/// Where `c` last occurs in `s`.
pub open spec fn last_of(s: Seq<char>, c: char) -> Option<int>
    decreases s.len(),
{
    if s.len() == 0 {
        None
    } else if s.last() == c {
        Some(s.len() - 1)
    } else {
        last_of(s.drop_last(), c)
    }
}

pub fn rfind(s: &[char], c: char) -> (r: Option<usize>)
    ensures
        (match r {
            Some(i) => Some(i as int),
            None => None,
        }) == last_of(s@, c),
        r matches Some(i) ==> i < s@.len() && s@[i as int] == c,
{
    let mut i: usize = s.len();
    assert(s@.take(i as int) =~= s@);
    while i > 0
        invariant
            i <= s@.len(),
            last_of(s@, c) == last_of(s@.take(i as int), c),
        decreases i,
    {
        if s[i - 1] == c {
            return Some(i - 1);
        }
        assert(s@.take(i as int).drop_last() =~= s@.take(i as int - 1));
        i -= 1;
    }
    None
}

// --- joining ----------------------------------------------------------------

/// The parts in order with `sep` between neighbours.
pub open spec fn joined(parts: Seq<Seq<char>>, sep: Seq<char>) -> Seq<char>
    decreases parts.len(),
{
    if parts.len() == 0 {
        Seq::empty()
    } else if parts.len() == 1 {
        parts[0]
    } else {
        joined(parts.drop_last(), sep) + sep + parts.last()
    }
}

/// Joining from the front.
pub proof fn lemma_joined_front(parts: Seq<Seq<char>>, sep: Seq<char>)
    requires
        parts.len() >= 2,
    ensures
        joined(parts, sep) == parts[0] + sep + joined(parts.skip(1), sep),
    decreases parts.len(),
{
    if parts.len() == 2 {
        assert(parts.drop_last().len() == 1);
        assert(joined(parts.drop_last(), sep) == parts[0]);
        assert(parts.skip(1).len() == 1);
    } else {
        lemma_joined_front(parts.drop_last(), sep);
        assert(parts.drop_last().skip(1) =~= parts.skip(1).drop_last());
        assert(parts.skip(1).last() == parts.last());
        assert(joined(parts, sep) =~= parts[0] + sep + joined(parts.skip(1), sep));
    }
}

pub fn join(parts: &[String], sep: &str) -> (r: String)
    ensures
        r@ == joined(views(parts@), sep@),
{
    let mut r = String::new();
    let mut i: usize = 0;
    let ghost vs = views(parts@);
    while i < parts.len()
        invariant
            i <= parts@.len(),
            vs == views(parts@),
            r@ == joined(vs.take(i as int), sep@),
        decreases parts@.len() - i,
    {
        if i > 0 {
            r.append(sep);
        }
        r.append(parts[i].as_str());
        i += 1;
        assert(vs.take(i as int).drop_last() =~= vs.take(i as int - 1));
        assert(vs.take(i as int).last() == parts@[i as int - 1]@);
        assert(r@ =~= joined(vs.take(i as int), sep@));
    }
    assert(vs.take(i as int) =~= vs);
    r
}

/// As `join`, for slices.
pub fn join_slices(parts: &[&[char]], sep: &str) -> (r: String)
    ensures
        r@ == joined(views(parts@), sep@),
{
    let mut owned: Vec<String> = Vec::new();
    let mut i: usize = 0;
    while i < parts.len()
        invariant
            i <= parts@.len(),
            views(owned@) == views(parts@).take(i as int),
        decreases parts@.len() - i,
    {
        let t = to_text(parts[i]);
        let ghost before = owned@;
        owned.push(t);
        i += 1;
        assert(views(owned@) =~= views(before).push(t@));
        assert(views(owned@) =~= views(parts@).take(i as int));
    }
    assert(views(owned@) =~= views(parts@));
    join(&owned, sep)
}

// --- lists of texts ---------------------------------------------------------

/// Whether `s` is one of the listed texts.
pub fn listed(s: &[char], list: &Vec<&str>) -> (r: bool)
    ensures
        r == views(list@).contains(s@),
{
    let mut i: usize = 0;
    while i < list.len()
        invariant
            i <= list@.len(),
            forall|k: int| 0 <= k < i ==> views(list@)[k] != s@,
        decreases list@.len() - i,
    {
        assert(views(list@)[i as int] == list@[i as int]@);
        if is_text(s, list[i]) {
            return true;
        }
        i += 1;
    }
    false
}

/// Whether `s` begins with one of the listed texts.
pub open spec fn begins_with_any(s: Seq<char>, list: Seq<Seq<char>>) -> bool {
    exists|i: int| 0 <= i < list.len() && (#[trigger] list[i]).is_prefix_of(s)
}

pub fn prefix_listed(s: &[char], list: &Vec<&str>) -> (r: bool)
    ensures
        r == begins_with_any(s@, views(list@)),
{
    let mut i: usize = 0;
    while i < list.len()
        invariant
            i <= list@.len(),
            forall|k: int| 0 <= k < i ==> !(#[trigger] views(list@)[k]).is_prefix_of(s@),
        decreases list@.len() - i,
    {
        assert(views(list@)[i as int] == list@[i as int]@);
        if starts_with(s, list[i]) {
            return true;
        }
        i += 1;
    }
    false
}

/// The given column, or nothing where there is no such column.
pub open spec fn field_of(cols: Seq<Seq<char>>, k: int) -> Seq<char> {
    if 0 <= k < cols.len() {
        cols[k]
    } else {
        Seq::empty()
    }
}

pub fn field<'a>(cols: &Vec<&'a [char]>, k: usize) -> (r: &'a [char])
    ensures
        r@ == field_of(views(cols@), k as int),
{
    if k < cols.len() {
        assert(views(cols@)[k as int] == cols@[k as int]@);
        cols[k]
    } else {
        &[]
    }
}

// --- rows of a listing ------------------------------------------------------

/// How one line of a listing is read.
pub trait LineReader {
    type Row: View;

    /// The row that a line stands for, if it stands for one.
    spec fn row_of(line: Seq<char>) -> Option<<Self::Row as View>::V>;

    fn read(line: &[char]) -> (r: Option<Self::Row>)
        ensures
            opt(r) == Self::row_of(line@),
    ;
}

/// The reader as a function from lines to rows.
pub open spec fn reader<R: LineReader>() -> spec_fn(Seq<char>) -> Option<<R::Row as View>::V> {
    |line: Seq<char>| R::row_of(line)
}

/// The rows of a listing, one for each line that stands for one.
pub open spec fn rows_of<R: LineReader>(out: Seq<char>) -> Seq<<R::Row as View>::V> {
    kept(lines_of(out), reader::<R>())
}

/// What follows the first item.
pub open spec fn below<A>(s: Seq<A>) -> Seq<A> {
    if s.len() > 0 {
        s.skip(1)
    } else {
        s
    }
}

/// The rows of a listing whose first line is a heading.
pub open spec fn rows_below<R: LineReader>(out: Seq<char>) -> Seq<<R::Row as View>::V> {
    kept(below(lines_of(out)), reader::<R>())
}

/// The first of some values, or `other` where there is none.
pub open spec fn first_or<A>(s: Seq<A>, other: A) -> A {
    if s.len() > 0 {
        s[0]
    } else {
        other
    }
}

/// What a reader makes of some slices.
pub fn read_all<R: LineReader>(ls: &[&[char]]) -> (r: Vec<R::Row>)
    ensures
        views(r@) == kept(views(ls@), reader::<R>()),
{
    broadcast use lemma_views_push;

    let mut r: Vec<R::Row> = Vec::new();
    let ghost vs = views(ls@);
    let ghost f = reader::<R>();
    let mut i: usize = 0;
    proof {
        lemma_kept_ends(views(r@), vs, f);
        assert(views(r@) =~= Seq::<<R::Row as View>::V>::empty());
    }
    while i < ls.len()
        invariant
            i <= ls@.len(),
            views(ls@) == vs,
            f == reader::<R>(),
            views(r@) + kept(vs.skip(i as int), f) == kept(vs, f),
        decreases ls@.len() - i,
    {
        proof {
            lemma_kept_step(views(r@), vs, i as int, f);
        }
        assert(ls@[i as int]@ == vs[i as int]);
        if let Some(row) = R::read(ls[i]) {
            r.push(row);
        }
        i += 1;
    }
    proof {
        lemma_kept_ends(views(r@), vs, f);
    }
    r
}

pub fn rows<R: LineReader>(out: &str) -> (r: Vec<R::Row>)
    ensures
        views(r@) == rows_of::<R>(out@),
{
    let all = to_chars(out);
    let ls = lines(&all);
    read_all::<R>(&ls)
}

pub fn rows_after_heading<R: LineReader>(out: &str) -> (r: Vec<R::Row>)
    ensures
        views(r@) == rows_below::<R>(out@),
{
    let all = to_chars(out);
    let ls = lines(&all);
    if ls.len() == 0 {
        return read_all::<R>(&ls);
    }
    let rest = vstd::slice::slice_subrange(&ls, 1, ls.len());
    assert(views(rest@) =~= views(ls@).skip(1));
    read_all::<R>(rest)
}

/// What a reader makes of the words of a text.
pub open spec fn word_rows_of<R: LineReader>(out: Seq<char>) -> Seq<<R::Row as View>::V> {
    kept(words_of(out), reader::<R>())
}

pub fn word_rows<R: LineReader>(out: &str) -> (r: Vec<R::Row>)
    ensures
        views(r@) == word_rows_of::<R>(out@),
{
    let all = to_chars(out);
    let ws = words(&all);
    read_all::<R>(&ws)
}

// --- bytes ------------------------------------------------------------------

/// How many bytes a character takes in UTF-8.
pub open spec fn width(c: char) -> nat {
    if c as u32 <= 0x7f {
        1
    } else if c as u32 <= 0x7ff {
        2
    } else if c as u32 <= 0xffff {
        3
    } else {
        4
    }
}

/// How many bytes a text takes in UTF-8.
pub open spec fn byte_count(s: Seq<char>) -> nat
    decreases s.len(),
{
    if s.len() == 0 {
        0
    } else {
        byte_count(s.drop_last()) + width(s.last())
    }
}

pub fn byte_len(s: &[char]) -> (r: u128)
    ensures
        r == byte_count(s@),
{
    let mut n: u128 = 0;
    let mut i: usize = 0;
    while i < s.len()
        invariant
            i <= s@.len(),
            n == byte_count(s@.take(i as int)),
            n <= 4 * i,
        decreases s@.len() - i,
    {
        let c = s[i] as u32;
        let w: u128 = if c <= 0x7f {
            1
        } else if c <= 0x7ff {
            2
        } else if c <= 0xffff {
            3
        } else {
            4
        };
        assert(s@.take(i as int + 1).drop_last() =~= s@.take(i as int));
        n += w;
        i += 1;
    }
    assert(s@.take(i as int) =~= s@);
    n
}

// --- what the pieces come to ------------------------------------------------

/// Views stand where the values stand.
pub proof fn law_views<T: View>(s: Seq<T>, i: int)
    ensures
        views(s).len() == s.len(),
        0 <= i < s.len() ==> views(s)[i] == s[i]@,
{
}

/// What is kept of two sequences, one behind the other, is what is kept of
/// each; of one item it is what the function gives for it.
pub proof fn law_kept_in_order<A, B>(a: Seq<A>, b: Seq<A>, x: A, f: spec_fn(A) -> Option<B>)
    ensures
        kept(a + b, f) == kept(a, f) + kept(b, f),
        kept(Seq::<A>::empty(), f) == Seq::<B>::empty(),
        f(x) is None ==> kept(seq![x], f) == Seq::<B>::empty(),
        f(x) matches Some(y) ==> kept(seq![x], f) == seq![y],
    decreases a.len(),
{
    assert(seq![x].skip(1) =~= Seq::<A>::empty());
    if a.len() == 0 {
        assert(a + b =~= b);
        assert(kept(a, f) + kept(b, f) =~= kept(b, f));
    } else {
        law_kept_in_order(a.skip(1), b, x, f);
        assert((a + b).skip(1) =~= a.skip(1) + b);
        assert((a + b)[0] == a[0]);
        if let Some(y) = f(a[0]) {
            assert(seq![y] + (kept(a.skip(1), f) + kept(b, f)) =~= (seq![y] + kept(a.skip(1), f))
                + kept(b, f));
        }
    }
    if let Some(y) = f(x) {
        assert(seq![y] + Seq::<B>::empty() =~= seq![y]);
    }
}

/// What is kept is exactly what the function gives for some item.
pub proof fn law_kept_items<A, B>(s: Seq<A>, f: spec_fn(A) -> Option<B>, y: B)
    ensures
        kept(s, f).contains(y) <==> exists|i: int| 0 <= i < s.len() && f(#[trigger] s[i]) == Some(y),
        kept(s, f).len() <= s.len(),
    decreases s.len(),
{
    if s.len() > 0 {
        let rest = s.skip(1);
        law_kept_items(rest, f, y);
        let k = kept(rest, f);
        let all = kept(s, f);
        if all.contains(y) {
            let j = choose|j: int| 0 <= j < all.len() && all[j] == y;
            if f(s[0]) is Some && j == 0 {
                assert(f(s[0]) == Some(y));
            } else {
                let off: int = if f(s[0]) is Some {
                    1
                } else {
                    0
                };
                assert(k[j - off] == y);
                assert(k.contains(y));
                let i = choose|i: int| 0 <= i < rest.len() && f(#[trigger] rest[i]) == Some(y);
                assert(s[i + 1] == rest[i]);
            }
        }
        if exists|i: int| 0 <= i < s.len() && f(#[trigger] s[i]) == Some(y) {
            let i = choose|i: int| 0 <= i < s.len() && f(#[trigger] s[i]) == Some(y);
            if i == 0 {
                assert(all[0] == y);
            } else {
                assert(rest[i - 1] == s[i]);
                assert(k.contains(y));
                let j = choose|j: int| 0 <= j < k.len() && k[j] == y;
                let off: int = if f(s[0]) is Some {
                    1
                } else {
                    0
                };
                assert(all[j + off] == y);
            }
        }
    }
}

/// Whitespace is what Unicode calls so; no letter, digit or sign of ASCII is.
pub proof fn law_space(c: char)
    ensures
        is_space(c) <==> seq![
            '\u{9}', '\u{a}', '\u{b}', '\u{c}', '\u{d}', '\u{20}', '\u{85}', '\u{a0}', '\u{1680}',
            '\u{2000}', '\u{2001}', '\u{2002}', '\u{2003}', '\u{2004}', '\u{2005}', '\u{2006}',
            '\u{2007}', '\u{2008}', '\u{2009}', '\u{200a}', '\u{2028}', '\u{2029}', '\u{202f}',
            '\u{205f}', '\u{3000}',
        ].contains(c),
        '!' <= c && c <= '~' ==> !is_space(c),
{
    let all = seq![
        '\u{9}', '\u{a}', '\u{b}', '\u{c}', '\u{d}', '\u{20}', '\u{85}', '\u{a0}', '\u{1680}',
        '\u{2000}', '\u{2001}', '\u{2002}', '\u{2003}', '\u{2004}', '\u{2005}', '\u{2006}',
        '\u{2007}', '\u{2008}', '\u{2009}', '\u{200a}', '\u{2028}', '\u{2029}', '\u{202f}',
        '\u{205f}', '\u{3000}',
    ];
    assert(all.len() == 25);
    if is_space(c) {
        assert(exists|i: int| 0 <= i < 25 && all[i] == c) by {
            if c == '\u{9}' { assert(all[0] == c); }
            if c == '\u{a}' { assert(all[1] == c); }
            if c == '\u{b}' { assert(all[2] == c); }
            if c == '\u{c}' { assert(all[3] == c); }
            if c == '\u{d}' { assert(all[4] == c); }
            if c == '\u{20}' { assert(all[5] == c); }
            if c == '\u{85}' { assert(all[6] == c); }
            if c == '\u{a0}' { assert(all[7] == c); }
            if c == '\u{1680}' { assert(all[8] == c); }
            if c == '\u{2000}' { assert(all[9] == c); }
            if c == '\u{2001}' { assert(all[10] == c); }
            if c == '\u{2002}' { assert(all[11] == c); }
            if c == '\u{2003}' { assert(all[12] == c); }
            if c == '\u{2004}' { assert(all[13] == c); }
            if c == '\u{2005}' { assert(all[14] == c); }
            if c == '\u{2006}' { assert(all[15] == c); }
            if c == '\u{2007}' { assert(all[16] == c); }
            if c == '\u{2008}' { assert(all[17] == c); }
            if c == '\u{2009}' { assert(all[18] == c); }
            if c == '\u{200a}' { assert(all[19] == c); }
            if c == '\u{2028}' { assert(all[20] == c); }
            if c == '\u{2029}' { assert(all[21] == c); }
            if c == '\u{202f}' { assert(all[22] == c); }
            if c == '\u{205f}' { assert(all[23] == c); }
            if c == '\u{3000}' { assert(all[24] == c); }
        }
    }
}

/// A text without whitespace.
pub open spec fn spaceless(s: Seq<char>) -> bool {
    forall|i: int| 0 <= i < s.len() ==> !is_space(#[trigger] s[i])
}

/// A text of nothing but whitespace.
pub open spec fn blank(s: Seq<char>) -> bool {
    forall|i: int| 0 <= i < s.len() ==> is_space(#[trigger] s[i])
}

proof fn lemma_trimmed_start_lead(lead: Seq<char>, rest: Seq<char>)
    requires
        blank(lead),
    ensures
        trimmed_start(lead + rest) == trimmed_start(rest),
    decreases lead.len(),
{
    if lead.len() == 0 {
        assert(lead + rest =~= rest);
    } else {
        let s = lead + rest;
        assert(s[0] == lead[0]);
        assert(s.skip(1) =~= lead.skip(1) + rest);
        assert forall|i: int| 0 <= i < lead.skip(1).len() implies is_space(
            #[trigger] lead.skip(1)[i],
        ) by {
            assert(lead.skip(1)[i] == lead[i + 1]);
        }
        lemma_trimmed_start_lead(lead.skip(1), rest);
    }
}

proof fn lemma_trimmed_end_tail(front: Seq<char>, tail: Seq<char>)
    requires
        blank(tail),
    ensures
        trimmed_end(front + tail) == trimmed_end(front),
    decreases tail.len(),
{
    if tail.len() == 0 {
        assert(front + tail =~= front);
    } else {
        let s = front + tail;
        assert(s.last() == tail.last());
        assert(tail.last() == tail[tail.len() - 1]);
        assert(s.drop_last() =~= front + tail.drop_last());
        assert forall|i: int| 0 <= i < tail.drop_last().len() implies is_space(
            #[trigger] tail.drop_last()[i],
        ) by {
            assert(tail.drop_last()[i] == tail[i]);
        }
        lemma_trimmed_end_tail(front, tail.drop_last());
    }
}

/// Trimming takes away the whitespace on both sides and nothing else.
pub proof fn law_trimmed(lead: Seq<char>, core: Seq<char>, tail: Seq<char>)
    requires
        blank(lead),
        blank(tail),
        core.len() > 0 ==> !is_space(core[0]) && !is_space(core.last()),
    ensures
        trimmed(lead + core + tail) == core,
        trimmed(core) == core,
{
    assert(lead + core + tail =~= lead + (core + tail));
    lemma_trimmed_start_lead(lead, core + tail);
    if core.len() > 0 {
        assert((core + tail)[0] == core[0]);
        lemma_trimmed_end_tail(core, tail);
    } else {
        assert(core + tail =~= tail + core);
        lemma_trimmed_start_lead(tail, core);
        assert(trimmed_start(core) == core);
        assert(trimmed_end(core) == core);
    }
}

/// A text without whitespace stays as it is.
pub proof fn law_trimmed_word(s: Seq<char>)
    requires
        spaceless(s),
    ensures
        trimmed(s) == s,
{
    let none = Seq::<char>::empty();
    if s.len() > 0 {
        assert(!is_space(s[0]));
        assert(s.last() == s[s.len() - 1]);
    }
    law_trimmed(none, s, none);
}

/// A pattern is found at the first place where it stands, and nowhere only
/// where it stands nowhere.
pub proof fn law_find(s: Seq<char>, pat: Seq<char>)
    ensures
        find_in(s, pat) matches Some(i) ==> 0 <= i && i + pat.len() <= s.len() && s.subrange(
            i,
            i + pat.len(),
        ) == pat && forall|j: int|
            0 <= j < i ==> !(j + pat.len() <= s.len() && #[trigger] s.subrange(j, j + pat.len())
                == pat),
        find_in(s, pat) is None ==> forall|j: int|
            0 <= j && j + pat.len() <= s.len() ==> #[trigger] s.subrange(j, j + pat.len()) != pat,
        occurs(s, pat) <==> exists|j: int|
            0 <= j && j + pat.len() <= s.len() && #[trigger] s.subrange(j, j + pat.len()) == pat,
    decreases s.len(),
{
    if pat.is_prefix_of(s) {
        assert(s.subrange(0, 0int + pat.len()) == pat);
    } else if s.len() == 0 {
        assert forall|j: int| 0 <= j && j + pat.len() <= s.len() implies #[trigger] s.subrange(
            j,
            j + pat.len(),
        ) != pat by {
            assert(j == 0);
        }
    } else {
        let rest = s.skip(1);
        law_find(rest, pat);
        assert forall|j: int| 0 < j && j + pat.len() <= s.len() implies #[trigger] s.subrange(
            j,
            j + pat.len(),
        ) == rest.subrange(j - 1, j - 1 + pat.len()) by {
            assert(s.subrange(j, j + pat.len()) =~= rest.subrange(j - 1, j - 1 + pat.len()));
        }
        if let Some(i) = find_in(rest, pat) {
            assert(s.subrange(i + 1, i + 1 + pat.len()) == pat);
            assert forall|j: int| 0 <= j < i + 1 implies !(j + pat.len() <= s.len()
                && #[trigger] s.subrange(j, j + pat.len()) == pat) by {
                if j > 0 && j + pat.len() <= s.len() {
                    assert(rest.subrange(j - 1, j - 1 + pat.len()) == s.subrange(j, j + pat.len()));
                }
            }
        } else {
            assert forall|j: int| 0 <= j && j + pat.len() <= s.len() implies #[trigger] s.subrange(
                j,
                j + pat.len(),
            ) != pat by {
                if j > 0 {
                    assert(rest.subrange(j - 1, j - 1 + pat.len()) != pat);
                }
            }
        }
    }
}

/// A pattern that stands between two texts is found there.
pub proof fn lemma_occurs_between(a: Seq<char>, pat: Seq<char>, b: Seq<char>)
    ensures
        occurs(a + pat + b, pat),
{
    let s = a + pat + b;
    let i = a.len() as int;
    law_find(s, pat);
    assert(s.subrange(i, i + pat.len()) =~= pat);
}

/// What stands before and behind the first mark of one character.
pub proof fn law_split_once(a: Seq<char>, b: Seq<char>, c: char)
    requires
        !a.contains(c),
    ensures
        split_once_at(a + seq![c] + b, seq![c]) == Some((a, b)),
        split_once_at(a, seq![c]) is None,
{
    let s = a + seq![c] + b;
    assert(s =~= a + (seq![c] + b));
    lemma_find_char(s, seq![c]);
    lemma_find_char(a, seq![c]);
    lemma_run_before_absent(a, c);
    lemma_run_before_append(a, seq![c] + b, c);
    assert((seq![c] + b)[0] == c);
    assert(s.take(a.len() as int) =~= a);
    assert(s.skip(a.len() + 1int) =~= b);
}

/// Parts that were joined with a mark of one character, which none of them
/// holds, are the parts that splitting gives back.
pub proof fn law_split(a: Seq<char>, b: Seq<char>, c: char, limit: nat)
    requires
        !a.contains(c),
    ensures
        split_by(a, seq![c]) == seq![a],
        split_by(a + seq![c] + b, seq![c]) == seq![a] + split_by(b, seq![c]),
        limit >= 1 ==> split_at_most(a, seq![c], limit) == seq![a],
        limit >= 2 ==> split_at_most(a + seq![c] + b, seq![c], limit) == seq![a] + split_at_most(
            b,
            seq![c],
            (limit - 1) as nat,
        ),
        split_at_most(b, seq![c], 1) == seq![b],
        split_at_most(b, seq![c], 0).len() == 0,
{
    law_split_once(a, b, c);
}

proof fn lemma_joined_absent(parts: Seq<Seq<char>>, c: char)
    requires
        parts.len() > 0,
        forall|i: int| 0 <= i < parts.len() ==> !(#[trigger] parts[i]).contains(c),
    ensures
        split_by(joined(parts, seq![c]), seq![c]) == parts,
    decreases parts.len(),
{
    let a = parts[0];
    if parts.len() == 1 {
        law_split(a, a, c, 1);
        assert(seq![a] =~= parts);
    } else {
        let rest = parts.skip(1);
        assert forall|i: int| 0 <= i < rest.len() implies !(#[trigger] rest[i]).contains(c) by {
            assert(rest[i] == parts[i + 1]);
        }
        lemma_joined_absent(rest, c);
        lemma_joined_front(parts, seq![c]);
        law_split(a, joined(rest, seq![c]), c, 1);
        assert(seq![a] + rest =~= parts);
    }
}

/// Splitting undoes joining with a mark of one character that no part holds.
pub proof fn law_split_joined(parts: Seq<Seq<char>>, c: char)
    requires
        parts.len() > 0,
        forall|i: int| 0 <= i < parts.len() ==> !(#[trigger] parts[i]).contains(c),
    ensures
        split_by(joined(parts, seq![c]), seq![c]) == parts,
{
    lemma_joined_absent(parts, c);
}

/// Joining what splitting gives restores the text, and no part but the last
/// ends early: the mark stands in none of them.
pub proof fn law_joined_split(s: Seq<char>, pat: Seq<char>)
    requires
        pat.len() > 0,
    ensures
        joined(split_by(s, pat), pat) == s,
        split_by(s, pat).len() > 0,
        forall|i: int| 0 <= i < split_by(s, pat).len() ==> !occurs(#[trigger] split_by(s, pat)[i], pat),
    decreases s.len(),
{
    lemma_find_in(s, pat);
    law_find(s, pat);
    let parts = split_by(s, pat);
    if let Some(i) = find_in(s, pat) {
        let a = s.take(i);
        let b = s.skip(i + pat.len());
        law_joined_split(b, pat);
        let later = split_by(b, pat);
        assert(parts == seq![a] + later);
        assert(parts.skip(1) =~= later);
        lemma_joined_front(parts, pat);
        assert(a + pat + b =~= s) by {
            assert(s.subrange(i, i + pat.len()) == pat);
            assert(a + s.subrange(i, i + pat.len()) + b =~= s);
        }
        law_find(a, pat);
        assert(!occurs(a, pat)) by {
            if occurs(a, pat) {
                let j = choose|j: int|
                    0 <= j && j + pat.len() <= a.len() && #[trigger] a.subrange(j, j + pat.len())
                        == pat;
                assert(s.subrange(j, j + pat.len()) =~= a.subrange(j, j + pat.len()));
            }
        }
        assert forall|k: int| 0 <= k < parts.len() implies !occurs(#[trigger] parts[k], pat) by {
            if k > 0 {
                assert(parts[k] == later[k - 1]);
            }
        }
    } else {
        assert(parts =~= seq![s]);
    }
}

/// Parts in order, with the separator between neighbours and nowhere else.
pub proof fn law_joined(parts: Seq<Seq<char>>, x: Seq<char>, sep: Seq<char>)
    ensures
        joined(Seq::<Seq<char>>::empty(), sep) == Seq::<char>::empty(),
        joined(seq![x], sep) == x,
        parts.len() > 0 ==> joined(parts.push(x), sep) == joined(parts, sep) + sep + x,
        parts.len() > 0 ==> joined(seq![x] + parts, sep) == x + sep + joined(parts, sep),
{
    if parts.len() > 0 {
        assert(parts.push(x).drop_last() =~= parts);
        let all = seq![x] + parts;
        lemma_joined_front(all, sep);
        assert(all.skip(1) =~= parts);
    }
}

/// A word, whatever whitespace precedes it, is the first word; a text of
/// whitespace has none.
pub proof fn law_words(lead: Seq<char>, word: Seq<char>, rest: Seq<char>)
    requires
        blank(lead),
        word.len() > 0,
        spaceless(word),
        rest.len() > 0 ==> is_space(rest[0]),
    ensures
        words_of(lead + word + rest) == seq![word] + words_of(rest),
        words_of(lead) == Seq::<Seq<char>>::empty(),
    decreases lead.len(),
{
    let s = lead + word + rest;
    if lead.len() == 0 {
        assert(s =~= word + rest);
        lemma_word_len_ends(word, rest);
        assert(s[0] == word[0]);
        assert(s.take(word.len() as int) =~= word);
        assert(s.skip(word.len() as int) =~= rest);
    } else {
        let later = lead.skip(1);
        assert forall|i: int| 0 <= i < later.len() implies is_space(#[trigger] later[i]) by {
            assert(later[i] == lead[i + 1]);
        }
        law_words(later, word, rest);
        assert(s[0] == lead[0]);
        assert(s.skip(1) =~= later + word + rest);
    }
}

/// The words of words joined with single spaces are those words.
pub proof fn law_words_joined(w: Seq<Seq<char>>)
    requires
        forall|i: int| 0 <= i < w.len() ==> (#[trigger] w[i]).len() > 0 && spaceless(w[i]),
    ensures
        words_of(joined(w, " "@)) == w,
    decreases w.len(),
{
    reveal_strlit(" ");
    let none = Seq::<char>::empty();
    if w.len() == 0 {
        assert(w =~= Seq::empty());
    } else if w.len() == 1 {
        law_words(none, w[0], none);
        assert(none + w[0] + none =~= w[0]);
        assert(seq![w[0]] + words_of(none) =~= w);
    } else {
        let rest = w.skip(1);
        assert forall|i: int| 0 <= i < rest.len() implies (#[trigger] rest[i]).len() > 0
            && spaceless(rest[i]) by {
            assert(rest[i] == w[i + 1]);
        }
        law_words_joined(rest);
        lemma_joined_front(w, " "@);
        let tail = joined(rest, " "@);
        assert(blank(" "@));
        law_words(none, w[0], " "@ + tail);
        assert(none + w[0] + (" "@ + tail) =~= w[0] + " "@ + tail);
        lemma_words_lead(" "@, tail);
        assert(seq![w[0]] + rest =~= w);
    }
}

/// Whitespace ahead of a text changes none of its words.
pub proof fn lemma_words_lead(lead: Seq<char>, s: Seq<char>)
    requires
        blank(lead),
    ensures
        words_of(lead + s) == words_of(s),
    decreases lead.len(),
{
    if lead.len() == 0 {
        assert(lead + s =~= s);
    } else {
        let later = lead.skip(1);
        assert forall|i: int| 0 <= i < later.len() implies is_space(#[trigger] later[i]) by {
            assert(later[i] == lead[i + 1]);
        }
        lemma_words_lead(later, s);
        assert((lead + s)[0] == lead[0]);
        assert((lead + s).skip(1) =~= later + s);
    }
}

/// A line ends at its line feed, and a carriage return ahead of that is no
/// part of it; what follows the last line feed is a line unless it is empty.
pub proof fn law_lines(line: Seq<char>, rest: Seq<char>)
    requires
        !line.contains('\n'),
    ensures
        lines_of(line + seq!['\r', '\n'] + rest) == seq![line] + lines_of(rest),
        !seq!['\r'].is_suffix_of(line) ==> lines_of(line + seq!['\n'] + rest) == seq![line]
            + lines_of(rest),
        line.len() > 0 ==> lines_of(line) == seq![line],
        lines_of(Seq::<char>::empty()) == Seq::<Seq<char>>::empty(),
{
    let cr = line.push('\r');
    assert(!cr.contains('\n')) by {
        if cr.contains('\n') {
            let k = choose|k: int| 0 <= k < cr.len() && cr[k] == '\n';
            assert(line[k] == '\n');
        }
    }
    lemma_lines_first(cr, rest);
    assert(cr + seq!['\n'] + rest =~= line + seq!['\r', '\n'] + rest);
    assert(without_cr(cr) =~= line);
    lemma_lines_first(line, rest);
    if line.len() > 0 && line.last() == '\r' {
        assert(line.subrange(line.len() - 1, line.len() as int) =~= seq!['\r']);
    }
    lemma_run_before_absent(line, '\n');
}

/// A listing is read line by line.
pub proof fn law_rows<R: LineReader>(line: Seq<char>, rest: Seq<char>)
    requires
        !line.contains('\n'),
        !seq!['\r'].is_suffix_of(line),
    ensures
        R::row_of(line) is None ==> rows_of::<R>(line + seq!['\n'] + rest) == rows_of::<R>(rest),
        R::row_of(line) matches Some(row) ==> rows_of::<R>(line + seq!['\n'] + rest) == seq![row]
            + rows_of::<R>(rest),
        rows_below::<R>(line + seq!['\n'] + rest) == rows_of::<R>(rest),
        rows_of::<R>(Seq::<char>::empty()).len() == 0,
        rows_below::<R>(Seq::<char>::empty()).len() == 0,
{
    law_lines(line, rest);
    let s = line + seq!['\n'] + rest;
    let ls = lines_of(s);
    assert(ls == seq![line] + lines_of(rest));
    assert(ls.skip(1) =~= lines_of(rest));
    assert(ls[0] == line);
    assert(reader::<R>()(line) == R::row_of(line));
}

/// Beginnings and endings come off where they are there.
pub proof fn law_affixes(a: Seq<char>, b: Seq<char>, s: Seq<char>)
    ensures
        without_prefix(a + b, a) == Some(b),
        without_suffix(a + b, b) == Some(a),
        without_prefix(s, a) matches Some(x) ==> s == a + x,
        without_suffix(s, b) matches Some(x) ==> s == x + b,
{
    assert(a =~= (a + b).subrange(0, a.len() as int));
    assert((a + b).skip(a.len() as int) =~= b);
    assert(b =~= (a + b).subrange(a.len() as int, (a + b).len() as int));
    assert((a + b).take(a.len() as int) =~= a);
    if a.is_prefix_of(s) {
        assert(s =~= a + s.skip(a.len() as int));
    }
    if b.is_suffix_of(s) {
        assert(s =~= s.take(s.len() - b.len()) + b);
    }
}

/// The last place of a character.
pub proof fn law_last_of(a: Seq<char>, b: Seq<char>, c: char)
    requires
        !b.contains(c),
    ensures
        last_of(a + seq![c] + b, c) == Some(a.len() as int),
        last_of(b, c) is None,
    decreases b.len(),
{
    let s = a + seq![c] + b;
    if b.len() == 0 {
        assert(s.last() == c);
    } else {
        assert(s.last() == b.last());
        assert(b.contains(b.last()));
        let early = b.drop_last();
        assert(!early.contains(c)) by {
            if early.contains(c) {
                let k = choose|k: int| 0 <= k < early.len() && early[k] == c;
                assert(b[k] == c);
            }
        }
        law_last_of(a, early, c);
        assert(s.drop_last() =~= a + seq![c] + early);
    }
}

/// A plain text is not empty, is shorter than the limit, and holds nothing but
/// ASCII letters, ASCII digits and the extra characters.
pub proof fn law_plain(s: Seq<char>, extra: Seq<char>, limit: int)
    ensures
        is_plain(s, extra, limit) <==> 0 < s.len() && s.len() < limit && forall|i: int|
            0 <= i < s.len() ==> ('0' <= #[trigger] s[i] && s[i] <= '9') || ('a' <= s[i] && s[i]
                <= 'z') || ('A' <= s[i] && s[i] <= 'Z') || extra.contains(s[i]),
{
}

/// The columns of a row stand where they stand; there is nothing beyond them.
pub proof fn law_columns(cols: Seq<Seq<char>>, k: int)
    ensures
        0 <= k < cols.len() ==> field_of(cols, k) == cols[k],
        cols.len() <= k ==> field_of(cols, k).len() == 0,
{
}

/// How many bytes UTF-8 takes for a character, and that texts add up.
pub proof fn law_byte_count(a: Seq<char>, b: Seq<char>, c: char)
    ensures
        byte_count(a + b) == byte_count(a) + byte_count(b),
        byte_count(seq![c]) == (if c as u32 <= 0x7f {
            1nat
        } else if c as u32 <= 0x7ff {
            2
        } else if c as u32 <= 0xffff {
            3
        } else {
            4
        }),
    decreases b.len(),
{
    reveal_with_fuel(byte_count, 2);
    assert(seq![c].drop_last() =~= Seq::<char>::empty());
    if b.len() == 0 {
        assert(a + b =~= a);
    } else {
        law_byte_count(a, b.drop_last(), c);
        assert((a + b).drop_last() =~= a + b.drop_last());
        assert((a + b).last() == b.last());
    }
}

/// A text begins with one of a list exactly when one of the list begins it.
pub proof fn law_begins_with_any(s: Seq<char>, list: Seq<Seq<char>>, i: int, tail: Seq<char>)
    requires
        0 <= i < list.len(),
    ensures
        begins_with_any(list[i] + tail, list),
        begins_with_any(s, list) <==> exists|k: int|
            0 <= k < list.len() && #[trigger] list[k].len() <= s.len() && s.take(
                list[k].len() as int,
            ) == list[k],
{
    let t = list[i] + tail;
    assert(list[i] =~= t.subrange(0, list[i].len() as int));
    assert forall|k: int| 0 <= k < list.len() && list[k].len() <= s.len() implies s.take(
        list[k].len() as int,
    ) == #[trigger] s.subrange(0, list[k].len() as int) by {
        assert(s.take(list[k].len() as int) =~= s.subrange(0, list[k].len() as int));
    }
    if begins_with_any(s, list) {
        let k = choose|k: int| 0 <= k < list.len() && (#[trigger] list[k]).is_prefix_of(s);
        assert(s.take(list[k].len() as int) =~= s.subrange(0, list[k].len() as int));
    }
    if exists|k: int|
        0 <= k < list.len() && #[trigger] list[k].len() <= s.len() && s.take(list[k].len() as int)
            == list[k] {
        let k = choose|k: int|
            0 <= k < list.len() && #[trigger] list[k].len() <= s.len() && s.take(
                list[k].len() as int,
            ) == list[k];
        assert(s.take(list[k].len() as int) =~= s.subrange(0, list[k].len() as int));
        assert(list[k].is_prefix_of(s));
    }
}

/// Parts that were joined with a mark come back where no part but perhaps the
/// last one allowed holds it.
pub proof fn law_split_at_most_joined(parts: Seq<Seq<char>>, c: char, limit: nat)
    requires
        0 < parts.len() <= limit,
        forall|i: int|
            0 <= i < parts.len() && i < limit - 1 ==> !(#[trigger] parts[i]).contains(c),
    ensures
        split_at_most(joined(parts, seq![c]), seq![c], limit) == parts,
    decreases parts.len(),
{
    let a = parts[0];
    if limit == 1 {
        assert(parts =~= seq![a]);
        assert(joined(parts, seq![c]) == a);
    } else if parts.len() == 1 {
        law_split(a, a, c, limit);
        assert(parts =~= seq![a]);
        assert(joined(parts, seq![c]) == a);
    } else {
        let rest = parts.skip(1);
        assert forall|i: int| 0 <= i < rest.len() && i < limit - 2 implies !(
        #[trigger] rest[i]).contains(c) by {
            assert(rest[i] == parts[i + 1]);
        }
        law_split_at_most_joined(rest, c, (limit - 1) as nat);
        lemma_joined_front(parts, seq![c]);
        law_split(a, joined(rest, seq![c]), c, limit);
        assert(seq![a] + rest =~= parts);
    }
}

/// A text begins with two characters exactly when these stand in front.
pub proof fn lemma_prefix_chars(s: Seq<char>, p: Seq<char>)
    ensures
        p.is_prefix_of(s) <==> p.len() <= s.len() && forall|i: int|
            0 <= i < p.len() ==> #[trigger] s[i] == p[i],
        p.is_suffix_of(s) <==> p.len() <= s.len() && forall|i: int|
            0 <= i < p.len() ==> #[trigger] s[s.len() - p.len() + i] == p[i],
{
    if p.is_prefix_of(s) {
        assert forall|i: int| 0 <= i < p.len() implies #[trigger] s[i] == p[i] by {
            assert(s.subrange(0, p.len() as int)[i] == s[i]);
        }
    }
    if p.len() <= s.len() && forall|i: int| 0 <= i < p.len() ==> #[trigger] s[i] == p[i] {
        assert(p =~= s.subrange(0, p.len() as int));
    }
    let n = s.len() - p.len();
    if p.is_suffix_of(s) {
        assert forall|i: int| 0 <= i < p.len() implies #[trigger] s[s.len() - p.len() + i]
            == p[i] by {
            assert(s.subrange(n, s.len() as int)[i] == s[n + i]);
        }
    }
    if p.len() <= s.len() && forall|i: int|
        0 <= i < p.len() ==> #[trigger] s[s.len() - p.len() + i] == p[i] {
        assert forall|i: int| 0 <= i < p.len() implies s.subrange(n, s.len() as int)[i] == p[i] by {
            assert(s[s.len() - p.len() + i] == p[i]);
        }
        assert(p =~= s.subrange(n, s.len() as int));
    }
}

/// Whitespace ahead of a text makes no difference once it is trimmed.
pub proof fn lemma_trimmed_lead(lead: Seq<char>, s: Seq<char>)
    requires
        blank(lead),
    ensures
        trimmed(lead + s) == trimmed(s),
{
    lemma_trimmed_start_lead(lead, s);
}

/// An optional value and a result stand for what they hold.
pub proof fn law_held<T: View, E: View>(x: T, e: E)
    ensures
        opt(Some(x)) == Some(x@),
        opt(None::<T>) is None,
        res(Ok::<T, E>(x)) == Ok::<T::V, E::V>(x@),
        res(Err::<T, E>(e)) == Err::<T::V, E::V>(e@),
{
}

/// What the shell leaves alone: no space, none of its own characters, and no
/// tilde in front.
pub proof fn law_inert(s: Seq<char>, i: int)
    ensures
        shell_inert(s) && 0 <= i < s.len() ==> !is_space(s[i]) && !(s[i] == '|' || s[i] == '&'
            || s[i] == ';' || s[i] == '<' || s[i] == '>' || s[i] == '(' || s[i] == ')' || s[i] == '$'
            || s[i] == '`' || s[i] == '\\' || s[i] == '"' || s[i] == '\'' || s[i] == '*' || s[i]
            == '?' || s[i] == '[' || s[i] == ']' || s[i] == '{' || s[i] == '}' || s[i] == '#'
            || s[i] == '!' || s[i] == '=' || s[i] == '%'),
        shell_inert(s) && s.len() > 0 ==> s[0] != '~',
{
    reveal_strlit(" |&;<>()$`\\\"'*?[]{}#!=%");
    let special = " |&;<>()$`\\\"'*?[]{}#!=%"@;
    assert(special[1] == '|' && special[2] == '&' && special[3] == ';' && special[4] == '<'
        && special[5] == '>' && special[6] == '(' && special[7] == ')' && special[8] == '$'
        && special[9] == '`' && special[10] == '\\' && special[11] == '"' && special[12] == '\''
        && special[13] == '*' && special[14] == '?' && special[15] == '[' && special[16] == ']'
        && special[17] == '{' && special[18] == '}' && special[19] == '#' && special[20] == '!'
        && special[21] == '=' && special[22] == '%');
    if shell_inert(s) && 0 <= i < s.len() {
        assert(!shell_special(s[i]));
    }
}

} // verus!
