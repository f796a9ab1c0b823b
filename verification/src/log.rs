//! The bounded transcript of a running command, and the message drawn from a
//! command that failed.

use vstd::prelude::*;

use crate::text::{lines, lines_of, opt, to_chars, to_text, trim, trimmed, views};

verus! {

/// How many lines a transcript keeps.
pub const LOG_CAP: usize = 600;

/// The newest `LOG_CAP` lines.
pub open spec fn newest_lines(log: Seq<Seq<char>>) -> Seq<Seq<char>> {
    if log.len() > LOG_CAP {
        log.skip(log.len() - LOG_CAP)
    } else {
        log
    }
}

/// Appends a line and drops the oldest beyond the cap.
pub fn push_log(log: &mut Vec<String>, line: String)
    ensures
        views(final(log)@) == newest_lines(views(old(log)@).push(line@)),
{
    log.push(line);
    let ghost all = views(log@);
    assert(all =~= views(old(log)@).push(line@));
    let ghost mut dropped: int = 0;
    assert(all.skip(0) =~= all);
    while log.len() > LOG_CAP
        invariant
            0 <= dropped <= all.len(),
            views(log@) == all.skip(dropped),
            dropped > 0 ==> log@.len() >= LOG_CAP,
        decreases log@.len(),
    {
        let ghost before = log@;
        log.remove(0);
        assert(views(log@) =~= views(before).skip(1));
        proof {
            dropped = dropped + 1;
        }
        assert(views(log@) =~= all.skip(dropped));
    }
}

/// A transcript within the cap stays within it, gains the new line at its end
/// and loses at most its first.
pub proof fn law_log_bounded(log: Seq<Seq<char>>, line: Seq<char>)
    requires
        log.len() <= LOG_CAP,
    ensures
        newest_lines(log.push(line)).len() <= LOG_CAP,
        newest_lines(log.push(line)).last() == line,
        newest_lines(log.push(line)) == log.push(line) || newest_lines(log.push(line))
            == log.push(line).skip(1),
{
}

/// The last line of what a failed command wrote to its error stream, or
/// `fallback` when that is blank.
pub open spec fn failure_of(err: Seq<char>, fallback: Seq<char>) -> Seq<char> {
    let detail = trimmed(err);
    if detail.len() == 0 {
        fallback
    } else {
        lines_of(detail).last()
    }
}

/// A text that is not empty has a line.
pub proof fn lemma_has_line(s: Seq<char>)
    requires
        s.len() > 0,
    ensures
        lines_of(s).len() > 0,
{
}

pub fn failure(err: &str, fallback: &str) -> (r: String)
    ensures
        r@ == failure_of(err@, fallback@),
{
    let all = to_chars(err);
    let detail = trim(&all);
    if detail.len() == 0 {
        return to_text(&to_chars(fallback));
    }
    let ls = lines(detail);
    proof {
        lemma_has_line(detail@);
    }
    assert(views(ls@).last() == ls@.last()@);
    to_text(ls[ls.len() - 1])
}

/// The last line of what a failed command wrote to its error stream, if it
/// wrote anything.
pub open spec fn last_error_of(err: Seq<char>) -> Option<Seq<char>> {
    if trimmed(err).len() == 0 {
        None
    } else {
        Some(lines_of(trimmed(err)).last())
    }
}

pub fn last_error(err: &str) -> (r: Option<String>)
    ensures
        opt(r) == last_error_of(err@),
{
    let all = to_chars(err);
    if trim(&all).len() == 0 {
        None
    } else {
        Some(failure(err, ""))
    }
}

/// A transcript holds the newest six hundred lines, all of them where there
/// are no more.
pub proof fn law_newest_lines(old_lines: Seq<Seq<char>>, new_lines: Seq<Seq<char>>)
    ensures
        new_lines.len() == 600 ==> newest_lines(old_lines + new_lines) == new_lines,
        new_lines.len() < 600 ==> newest_lines(new_lines) == new_lines,
{
    if new_lines.len() == 600 {
        assert((old_lines + new_lines).skip(old_lines.len() as int) =~= new_lines);
        assert(old_lines.len() == 0 ==> old_lines + new_lines =~= new_lines);
    }
}

/// Of what a failed command wrote, its last line says why it failed; where it
/// wrote nothing but whitespace, there is none and the fallback is said.
pub proof fn law_failure_is_last_line(err: Seq<char>, fallback: Seq<char>)
    ensures
        trimmed(err).len() == 0 ==> failure_of(err, fallback) == fallback && last_error_of(
            err,
        ) is None,
        trimmed(err).len() > 0 ==> last_error_of(err) == Some(failure_of(err, fallback))
            && lines_of(trimmed(err)).len() > 0 && failure_of(err, fallback) == lines_of(
            trimmed(err),
        )[lines_of(trimmed(err)).len() - 1],
{
    if trimmed(err).len() > 0 {
        lemma_has_line(trimmed(err));
    }
}

} // verus!
