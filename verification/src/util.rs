//! Where tools are looked for, and which are needed.

use vstd::prelude::*;
use vstd::string::*;

use crate::text::{
    ends_with, joined, law_split_joined, lemma_views_push, split, split_by, starts_with, to_chars,
    to_text, views,
};

verus! {

/// A name below a directory.
pub open spec fn path_in(dir: Seq<char>, name: Seq<char>) -> Seq<char> {
    if "/"@.is_prefix_of(name) || dir.len() == 0 {
        name
    } else if "/"@.is_suffix_of(dir) {
        dir + name
    } else {
        dir + "/"@ + name
    }
}

pub fn join_path(dir: &str, name: &str) -> (r: String)
    ensures
        r@ == path_in(dir@, name@),
{
    let d = to_chars(dir);
    let n = to_chars(name);
    if starts_with(&n, "/") || d.len() == 0 {
        return name.to_owned();
    }
    let mut p = dir.to_owned();
    if !ends_with(&d, "/") {
        p.append("/");
    }
    p.append(name);
    assert(p@ =~= path_in(dir@, name@));
    p
}

/// Where an executable may stand, given the search path.
pub open spec fn candidates_of(path: Seq<char>, name: Seq<char>) -> Seq<Seq<char>> {
    split_by(path, ":"@).map_values(|dir: Seq<char>| path_in(dir, name))
}

pub fn bin_candidates(path: &str, name: &str) -> (r: Vec<String>)
    ensures
        views(r@) == candidates_of(path@, name@),
{
    broadcast use lemma_views_push;

    proof {
        reveal_strlit(":");
    }
    let c = to_chars(path);
    let dirs = split(&c, ":");
    let ghost all = candidates_of(path@, name@);
    let mut r: Vec<String> = Vec::new();
    let mut i: usize = 0;
    assert(views(r@) =~= all.take(0));
    while i < dirs.len()
        invariant
            i <= dirs@.len(),
            views(dirs@) == split_by(path@, ":"@),
            all == candidates_of(path@, name@),
            views(r@) == all.take(i as int),
        decreases dirs@.len() - i,
    {
        assert(views(dirs@)[i as int] == dirs@[i as int]@);
        let dir = to_text(dirs[i]);
        r.push(join_path(dir.as_str(), name));
        i += 1;
        assert(all.take(i as int) =~= all.take(i as int - 1).push(all[i as int - 1]));
    }
    assert(all.take(i as int) =~= all);
    r
}

/// Whether packages can be managed, given which of the needed tools are there.
pub fn package_tools_available(pkexec: bool, apt_get: bool, dpkg_query: bool) -> (r: bool)
    ensures
        r == (pkexec && apt_get && dpkg_query),
{
    pkexec && apt_get && dpkg_query
}

/// A name stands below its directory behind one slash, whether or not the
/// directory ends with one; an absolute name stands for itself.
pub proof fn law_paths(dir: Seq<char>, name: Seq<char>)
    requires
        dir.len() > 0,
    ensures
        name.len() > 0 && name[0] == '/' ==> path_in(dir, name) == name,
        !(name.len() > 0 && name[0] == '/') && dir.last() != '/' ==> path_in(dir, name) == dir
            + seq!['/'] + name,
        !(name.len() > 0 && name[0] == '/') && dir.last() == '/' ==> path_in(dir, name) == dir
            + name,
        path_in(Seq::<char>::empty(), name) == name,
{
    reveal_strlit("/");
    assert("/"@ =~= seq!['/']);
    if name.len() > 0 {
        assert(name.subrange(0, 1)[0] == name[0]);
        if name[0] == '/' {
            assert("/"@ =~= name.subrange(0, 1));
        }
    }
    let n = dir.len() as int;
    assert(dir.subrange(n - 1, n)[0] == dir.last());
    if dir.last() == '/' {
        assert("/"@ =~= dir.subrange(n - 1, n));
    }
}

/// An executable may stand in each directory of the search path, in order.
pub proof fn law_candidates(dirs: Seq<Seq<char>>, name: Seq<char>)
    requires
        dirs.len() > 0,
        forall|i: int| 0 <= i < dirs.len() ==> !(#[trigger] dirs[i]).contains(':'),
    ensures
        candidates_of(joined(dirs, ":"@), name).len() == dirs.len(),
        forall|i: int|
            0 <= i < dirs.len() ==> #[trigger] candidates_of(joined(dirs, ":"@), name)[i]
                == path_in(dirs[i], name),
{
    reveal_strlit(":");
    assert(":"@ =~= seq![':']);
    law_split_joined(dirs, ':');
}

} // verus!
