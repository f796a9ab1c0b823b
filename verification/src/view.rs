//! What several tabs share: selections, two-click confirmation, filtering,
//! and the panel of a running command.

use vstd::prelude::*;
use vstd::string::*;

use crate::text::{contains, lowercase, occurs, opt, same_text, to_chars, views};

verus! {

// --- the panel of a command -------------------------------------------------

/// What is shown of a command and its transcript.
#[derive(Clone, Copy, Debug, PartialEq, Eq, Structural)]
pub enum Panel {
    Hidden,
    Running,
    Finished { ok: bool },
}

/// What is shown: a running command, or one that ended and left a transcript.
pub open spec fn panel_of(busy: bool, done: bool, lines: nat, ok: bool) -> Panel {
    if busy {
        Panel::Running
    } else if done && lines > 0 {
        Panel::Finished { ok }
    } else {
        Panel::Hidden
    }
}

pub fn panel(busy: bool, done: bool, lines: usize, ok: bool) -> (r: Panel)
    ensures
        r == panel_of(busy, done, lines as nat, ok),
{
    if busy {
        Panel::Running
    } else if done && lines > 0 {
        Panel::Finished { ok }
    } else {
        Panel::Hidden
    }
}

/// Whether a list that is being loaded has nothing to show yet.
pub fn waiting(loading: bool, listed: usize) -> (r: bool)
    ensures
        r == (loading && listed == 0),
{
    loading && listed == 0
}

// --- selections -------------------------------------------------------------

/// The keys that are ticked in a list.
pub struct Selection {
    keys: Vec<String>,
}

impl View for Selection {
    type V = Set<Seq<char>>;

    closed spec fn view(&self) -> Set<Seq<char>> {
        views(self.keys@).to_set()
    }
}

fn place(keys: &[String], key: &str) -> (r: Option<usize>)
    ensures
        (match r {
            Some(i) => i < keys@.len() && views(keys@)[i as int] == key@,
            None => !views(keys@).contains(key@),
        }),
{
    let mut i: usize = 0;
    while i < keys.len()
        invariant
            i <= keys@.len(),
            forall|k: int| 0 <= k < i ==> views(keys@)[k] != key@,
        decreases keys@.len() - i,
    {
        assert(views(keys@)[i as int] == keys@[i as int]@);
        if same_text(keys[i].as_str(), key) {
            return Some(i);
        }
        i += 1;
    }
    None
}

fn copy(keys: &[String]) -> (r: Vec<String>)
    ensures
        views(r@) == views(keys@),
{
    let mut r: Vec<String> = Vec::new();
    let mut i: usize = 0;
    while i < keys.len()
        invariant
            i <= keys@.len(),
            r@.len() == i,
            forall|k: int| 0 <= k < i ==> (#[trigger] r@[k])@ == keys@[k]@,
        decreases keys@.len() - i,
    {
        r.push(keys[i].clone());
        i += 1;
    }
    assert(views(r@) =~= views(keys@));
    r
}

impl Selection {
    #[verifier::type_invariant]
    spec fn distinct(self) -> bool {
        views(self.keys@).no_duplicates()
    }

    pub fn new() -> (r: Self)
        ensures
            r@ == Set::<Seq<char>>::empty(),
    {
        let keys: Vec<String> = Vec::new();
        let r = Selection { keys };
        assert(r@ =~= Set::empty());
        r
    }

    pub fn contains(&self, key: &str) -> (r: bool)
        ensures
            r == self@.contains(key@),
    {
        match place(&self.keys, key) {
            Some(_) => {
                assert(views(self.keys@).contains(key@));
                true
            },
            None => false,
        }
    }

    pub fn is_empty(&self) -> (r: bool)
        ensures
            r == (self@ == Set::<Seq<char>>::empty()),
    {
        let n = self.keys.len();
        proof {
            if n > 0 {
                let first = views(self.keys@)[0];
                assert(views(self.keys@).contains(first));
                assert(self@.contains(first));
            } else {
                assert(self@ =~= Set::empty());
            }
        }
        n == 0
    }

    pub fn len(&self) -> (r: usize)
        ensures
            r == self@.len(),
            self@.finite(),
    {
        proof {
            use_type_invariant(self);
            views(self.keys@).unique_seq_to_set();
        }
        self.keys.len()
    }

    /// Ticks a key, or unticks it if it was ticked.
    pub fn toggle(&mut self, key: &str)
        ensures
            final(self)@ == (if old(self)@.contains(key@) {
                old(self)@.remove(key@)
            } else {
                old(self)@.insert(key@)
            }),
    {
        proof {
            use_type_invariant(&*self);
        }
        let mut keys = copy(&self.keys);
        let ghost before = views(keys@);
        match place(&keys, key) {
            Some(i) => {
                keys.remove(i);
                let ghost now = views(keys@);
                proof {
                    assert(now =~= before.remove(i as int));
                    assert(before.contains(key@));
                    assert(now.no_duplicates()) by {
                        assert forall|a: int, b: int|
                            0 <= a < now.len() && 0 <= b < now.len() && a != b implies now[a]
                            != now[b] by {
                            let x = if a < i {
                                a
                            } else {
                                a + 1
                            };
                            let y = if b < i {
                                b
                            } else {
                                b + 1
                            };
                            assert(before[x] == now[a] && before[y] == now[b]);
                        }
                    }
                    assert(now.to_set() =~= before.to_set().remove(key@)) by {
                        assert forall|k: Seq<char>| now.to_set().contains(k)
                            <==> before.to_set().remove(key@).contains(k) by {
                            if now.contains(k) {
                                let a = choose|a: int| 0 <= a < now.len() && now[a] == k;
                                let x = if a < i {
                                    a
                                } else {
                                    a + 1
                                };
                                assert(before[x] == k);
                                assert(before[i as int] == key@);
                            }
                            if before.contains(k) && k != key@ {
                                let x = choose|x: int| 0 <= x < before.len() && before[x] == k;
                                let a = if x < i {
                                    x
                                } else {
                                    x - 1
                                };
                                assert(now[a] == k);
                            }
                        }
                    }
                }
            },
            None => {
                keys.push(key.to_owned());
                let ghost now = views(keys@);
                proof {
                    assert(now =~= before.push(key@));
                    assert(now.no_duplicates());
                    assert(now.to_set() =~= before.to_set().insert(key@)) by {
                        assert forall|k: Seq<char>| now.to_set().contains(k)
                            <==> before.to_set().insert(key@).contains(k) by {
                            if before.contains(k) {
                                let x = choose|x: int| 0 <= x < before.len() && before[x] == k;
                                assert(now[x] == k);
                            }
                            assert(now[before.len() as int] == key@);
                        }
                    }
                }
            },
        }
        self.keys = keys;
    }

    /// Unticks every key that is not in a list.
    pub fn retain(&mut self, listed: &[String])
        ensures
            final(self)@ == old(self)@.intersect(views(listed@).to_set()),
    {
        proof {
            use_type_invariant(&*self);
        }
        let ghost before = views(self.keys@);
        let ghost allowed = views(listed@).to_set();
        let mut keys: Vec<String> = Vec::new();
        let mut i: usize = 0;
        assert(views(keys@) =~= Seq::<Seq<char>>::empty());
        assert(views(keys@).to_set() =~= before.take(0).to_set().intersect(allowed));
        while i < self.keys.len()
            invariant
                i <= self.keys@.len(),
                before == views(self.keys@),
                before.no_duplicates(),
                allowed == views(listed@).to_set(),
                views(keys@).no_duplicates(),
                views(keys@).to_set() == before.take(i as int).to_set().intersect(allowed),
            decreases self.keys@.len() - i,
        {
            let ghost key = before[i as int];
            let ghost was = views(keys@);
            let k = self.keys[i].as_str();
            assert(k@ == key);
            let ghost upto = before.take(i as int);
            let ghost next = before.take(i as int + 1);
            assert(next =~= upto.push(key));
            proof {
                assert forall|x: Seq<char>| next.to_set().contains(x) <==> (upto.to_set().contains(x)
                    || x == key) by {
                    if upto.contains(x) {
                        let a = choose|a: int| 0 <= a < upto.len() && upto[a] == x;
                        assert(next[a] == x);
                    }
                    assert(next[i as int] == key);
                }
                assert(!was.contains(key)) by {
                    if was.contains(key) {
                        assert(was.to_set().contains(key));
                        assert(upto.contains(key));
                        let a = choose|a: int| 0 <= a < upto.len() && upto[a] == key;
                        assert(before[a] == before[i as int]);
                    }
                }
            }
            match place(listed, k) {
                Some(_) => {
                    keys.push(k.to_owned());
                    proof {
                        let now = views(keys@);
                        assert(now =~= was.push(key));
                        assert(views(listed@).contains(key));
                        assert(now.to_set() =~= next.to_set().intersect(allowed)) by {
                            assert forall|x: Seq<char>| now.to_set().contains(x)
                                <==> next.to_set().intersect(allowed).contains(x) by {
                                if was.contains(x) {
                                    let a = choose|a: int| 0 <= a < was.len() && was[a] == x;
                                    assert(now[a] == x);
                                    assert(was.to_set().contains(x));
                                }
                                assert(now[was.len() as int] == key);
                                if upto.to_set().intersect(allowed).contains(x) {
                                    assert(was.to_set().contains(x));
                                }
                            }
                        }
                    }
                },
                None => {
                    assert(was.to_set() =~= next.to_set().intersect(allowed));
                },
            }
            i += 1;
        }
        assert(before.take(i as int) =~= before);
        self.keys = keys;
    }

    /// Unticks everything.
    pub fn clear(&mut self)
        ensures
            final(self)@ == Set::<Seq<char>>::empty(),
    {
        let keys: Vec<String> = Vec::new();
        self.keys = keys;
        assert(self@ =~= Set::empty());
    }

    /// The ticked keys, each once.
    pub fn to_vec(&self) -> (r: Vec<String>)
        ensures
            views(r@).no_duplicates(),
            views(r@).to_set() == self@,
    {
        proof {
            use_type_invariant(self);
        }
        copy(&self.keys)
    }
}

/// Ticking and unticking a key leaves the selection as it was.
pub proof fn law_toggle_twice(s: Set<Seq<char>>, key: Seq<char>)
    ensures
        ({
            let once = if s.contains(key) {
                s.remove(key)
            } else {
                s.insert(key)
            };
            let twice = if once.contains(key) {
                once.remove(key)
            } else {
                once.insert(key)
            };
            twice == s
        }),
{
    if s.contains(key) {
        assert(s.remove(key).insert(key) =~= s);
    } else {
        assert(s.insert(key).remove(key) =~= s);
    }
}

// --- two clicks -------------------------------------------------------------

/// An action that takes two clicks: the first arms it for one key, the second
/// fires it.
pub struct Armed {
    pub key: Option<String>,
}

impl View for Armed {
    type V = Option<Seq<char>>;

    open spec fn view(&self) -> Option<Seq<char>> {
        opt(self.key)
    }
}

impl Armed {
    pub fn new() -> (r: Self)
        ensures
            r@ is None,
    {
        Armed { key: None }
    }

    pub fn is_armed(&self, key: &str) -> (r: bool)
        ensures
            r == (self@ == Some(key@)),
    {
        match &self.key {
            Some(k) => same_text(k.as_str(), key),
            None => false,
        }
    }

    pub fn disarm(&mut self)
        ensures
            final(self)@ is None,
    {
        self.key = None;
    }

    /// A click on the action's button for a key: whether the action fires.
    pub fn click(&mut self, key: &str) -> (r: bool)
        ensures
            (final(self)@, r) == click(old(self)@, key@),
    {
        if self.is_armed(key) {
            self.key = None;
            true
        } else {
            self.key = Some(key.to_owned());
            false
        }
    }
}

/// What the state of a two-click action becomes with a click on its button.
pub open spec fn click(armed: Option<Seq<char>>, key: Seq<char>) -> (Option<Seq<char>>, bool) {
    if armed == Some(key) {
        (None, true)
    } else {
        (Some(key), false)
    }
}

/// One click never fires an action that is not armed, and two clicks on one
/// key fire it exactly once.
pub proof fn law_two_clicks(key: Seq<char>, other: Seq<char>)
    ensures
        !click(None, key).1,
        click(click(None, key).0, key) == (None::<Seq<char>>, true),
        other != key ==> !click(click(None, other).0, key).1,
{
}

/// A power action, which takes two clicks.
#[derive(Clone, Copy, Debug, PartialEq, Eq, Structural)]
pub enum Confirm {
    Reboot,
    PowerOff,
    RestartApp,
}

/// A click on a power button: it arms the action, or fires the armed one.
pub fn power_click(armed: Option<Confirm>, action: Confirm) -> (r: (Option<Confirm>, bool))
    ensures
        r == (if armed == Some(action) {
            (None::<Confirm>, true)
        } else {
            (Some(action), false)
        }),
{
    match armed {
        Some(a) => if a == action {
            (None, true)
        } else {
            (Some(action), false)
        },
        None => (Some(action), false),
    }
}

// --- filtering --------------------------------------------------------------

/// The numbers below `n` that have the property, in order.
pub open spec fn indices(n: nat, p: spec_fn(int) -> bool) -> Seq<int>
    decreases n,
{
    if n == 0 {
        Seq::empty()
    } else {
        let rest = indices((n - 1) as nat, p);
        if p(n - 1) {
            rest.push(n - 1)
        } else {
            rest
        }
    }
}

/// Positions in a list as mathematical integers.
pub open spec fn places(v: Seq<usize>) -> Seq<int> {
    v.map_values(|i: usize| i as int)
}

/// Whether a text matches what is being looked for, whatever its case.
pub open spec fn text_matches(text: Seq<char>, needle: Seq<char>) -> bool {
    needle.len() == 0 || occurs(lowercase(text), needle)
}

/// Whether a text matches a needle that is in lowercase already.
pub fn matches_lower(text: &str, needle: &str) -> (r: bool)
    ensures
        r == text_matches(text@, needle@),
{
    if to_chars(needle).len() == 0 {
        return true;
    }
    let lower = text.to_lowercase();
    contains(&to_chars(lower.as_str()), needle)
}

/// The positions found are exactly those with the property, in rising order.
pub proof fn law_indices(n: nat, p: spec_fn(int) -> bool)
    ensures
        forall|i: int| #[trigger] indices(n, p).contains(i) <==> 0 <= i < n && p(i),
        forall|a: int, b: int|
            0 <= a < b < indices(n, p).len() ==> #[trigger] indices(n, p)[a] < #[trigger] indices(
                n,
                p,
            )[b],
    decreases n,
{
    if n > 0 {
        let m = (n - 1) as nat;
        law_indices(m, p);
        let rest = indices(m, p);
        let all = indices(n, p);
        assert forall|i: int| #[trigger] all.contains(i) <==> 0 <= i < n && p(i) by {
            if all.contains(i) {
                let k = choose|k: int| 0 <= k < all.len() && all[k] == i;
                if k < rest.len() {
                    assert(rest[k] == i);
                    assert(rest.contains(i));
                }
            }
            if 0 <= i < n && p(i) {
                if i < m {
                    assert(rest.contains(i));
                    let k = choose|k: int| 0 <= k < rest.len() && rest[k] == i;
                    assert(all[k] == i);
                } else {
                    assert(all[rest.len() as int] == i);
                }
            }
        }
        assert forall|a: int, b: int| 0 <= a < b < all.len() implies #[trigger] all[a]
            < #[trigger] all[b] by {
            if b == rest.len() {
                assert(rest[a] == all[a]);
                assert(rest.contains(rest[a]));
            } else {
                assert(rest[a] == all[a] && rest[b] == all[b]);
            }
        }
    } else {
        assert(indices(n, p).len() == 0);
    }
}

/// A running command is always shown, one that ended only with its
/// transcript.
pub proof fn law_panel(busy: bool, done: bool, lines: nat, ok: bool)
    ensures
        panel_of(busy, done, lines, ok) is Running <==> busy,
        panel_of(busy, done, lines, ok) is Finished <==> !busy && done && lines > 0,
        panel_of(busy, done, lines, ok) is Finished ==> panel_of(busy, done, lines, ok)->ok == ok,
        panel_of(busy, done, lines, ok) is Hidden <==> !busy && !(done && lines > 0),
{
}

/// A click fires exactly what is armed, and arms what it does not fire.
pub proof fn law_click(armed: Option<Seq<char>>, key: Seq<char>)
    ensures
        click(armed, key).1 <==> armed == Some(key),
        click(armed, key).1 ==> click(armed, key).0 is None,
        !click(armed, key).1 ==> click(armed, key).0 == Some(key),
{
}

/// A text matches where nothing is looked for, or where its lowercase form
/// holds what is.
pub proof fn law_text_matches(text: Seq<char>, needle: Seq<char>)
    ensures
        needle.len() == 0 ==> text_matches(text, needle),
        needle.len() > 0 ==> (text_matches(text, needle) <==> occurs(lowercase(text), needle)),
{
}

/// A list of places stands for its numbers, an armed button for its key.
pub proof fn law_places(v: Seq<usize>, i: int, a: Armed)
    ensures
        places(v).len() == v.len(),
        0 <= i < v.len() ==> places(v)[i] == v[i],
        a@ == opt(a.key),
{
}

} // verus!
