//! Lexicographic order and stable sorting.

use vstd::prelude::*;

use crate::text::{to_chars, views};

verus! {

/// Dictionary order on texts, by character.
pub open spec fn text_lt(a: Seq<char>, b: Seq<char>) -> bool
    decreases b.len(),
{
    if b.len() == 0 {
        false
    } else if a.len() == 0 {
        true
    } else if a[0] != b[0] {
        a[0] < b[0]
    } else {
        text_lt(a.skip(1), b.skip(1))
    }
}

/// Dictionary order on sequences of numbers.
pub open spec fn key_lt(a: Seq<u64>, b: Seq<u64>) -> bool
    decreases b.len(),
{
    if b.len() == 0 {
        false
    } else if a.len() == 0 {
        true
    } else if a[0] != b[0] {
        a[0] < b[0]
    } else {
        key_lt(a.skip(1), b.skip(1))
    }
}

pub fn text_less(a: &[char], b: &[char]) -> (r: bool)
    ensures
        r == text_lt(a@, b@),
{
    let mut i: usize = 0;
    assert(a@.skip(0) =~= a@);
    assert(b@.skip(0) =~= b@);
    loop
        invariant
            i <= a@.len(),
            i <= b@.len(),
            text_lt(a@, b@) == text_lt(a@.skip(i as int), b@.skip(i as int)),
        decreases b@.len() - i,
    {
        if i == b.len() {
            return false;
        }
        if i == a.len() {
            return true;
        }
        if a[i] != b[i] {
            return a[i] < b[i];
        }
        assert(a@.skip(i as int).skip(1) =~= a@.skip(i as int + 1));
        assert(b@.skip(i as int).skip(1) =~= b@.skip(i as int + 1));
        i += 1;
    }
}

pub fn key_less(a: &[u64], b: &[u64]) -> (r: bool)
    ensures
        r == key_lt(a@, b@),
{
    let mut i: usize = 0;
    assert(a@.skip(0) =~= a@);
    assert(b@.skip(0) =~= b@);
    loop
        invariant
            i <= a@.len(),
            i <= b@.len(),
            key_lt(a@, b@) == key_lt(a@.skip(i as int), b@.skip(i as int)),
        decreases b@.len() - i,
    {
        if i == b.len() {
            return false;
        }
        if i == a.len() {
            return true;
        }
        if a[i] != b[i] {
            return a[i] < b[i];
        }
        assert(a@.skip(i as int).skip(1) =~= a@.skip(i as int + 1));
        assert(b@.skip(i as int).skip(1) =~= b@.skip(i as int + 1));
        i += 1;
    }
}

pub fn string_less(a: &str, b: &str) -> (r: bool)
    ensures
        r == text_lt(a@, b@),
{
    let x = to_chars(a);
    let y = to_chars(b);
    text_less(&x, &y)
}

proof fn lemma_text_irreflexive(a: Seq<char>)
    ensures
        !text_lt(a, a),
    decreases a.len(),
{
    if a.len() > 0 {
        lemma_text_irreflexive(a.skip(1));
    }
}

/// Dictionary order on texts is a strict total order.
pub proof fn law_text_order(a: Seq<char>, b: Seq<char>, c: Seq<char>)
    ensures
        !text_lt(a, a),
        text_lt(a, b) && text_lt(b, c) ==> text_lt(a, c),
        text_lt(a, b) ==> !text_lt(b, a),
        text_lt(a, b) || text_lt(b, a) || a == b,
    decreases a.len() + b.len() + c.len(),
{
    if a.len() > 0 && b.len() > 0 && c.len() > 0 {
        law_text_order(a.skip(1), b.skip(1), c.skip(1));
        if a.skip(1) == b.skip(1) && a[0] == b[0] {
            assert(a =~= seq![a[0]] + a.skip(1));
            assert(b =~= seq![b[0]] + b.skip(1));
        }
    } else if a.len() > 0 && b.len() > 0 {
        law_text_order(a.skip(1), b.skip(1), c);
        if a.skip(1) == b.skip(1) && a[0] == b[0] {
            assert(a =~= seq![a[0]] + a.skip(1));
            assert(b =~= seq![b[0]] + b.skip(1));
        }
    } else if a.len() > 0 {
        lemma_text_irreflexive(a);
    } else if b.len() == 0 {
        assert(a =~= b);
    }
}

proof fn lemma_key_irreflexive(a: Seq<u64>)
    ensures
        !key_lt(a, a),
    decreases a.len(),
{
    if a.len() > 0 {
        lemma_key_irreflexive(a.skip(1));
    }
}

/// Dictionary order on number sequences is a strict total order.
pub proof fn law_key_order(a: Seq<u64>, b: Seq<u64>, c: Seq<u64>)
    ensures
        !key_lt(a, a),
        key_lt(a, b) && key_lt(b, c) ==> key_lt(a, c),
        key_lt(a, b) ==> !key_lt(b, a),
        key_lt(a, b) || key_lt(b, a) || a == b,
    decreases a.len() + b.len() + c.len(),
{
    if a.len() > 0 && b.len() > 0 && c.len() > 0 {
        law_key_order(a.skip(1), b.skip(1), c.skip(1));
        if a.skip(1) == b.skip(1) && a[0] == b[0] {
            assert(a =~= seq![a[0]] + a.skip(1));
            assert(b =~= seq![b[0]] + b.skip(1));
        }
    } else if a.len() > 0 && b.len() > 0 {
        law_key_order(a.skip(1), b.skip(1), c);
        if a.skip(1) == b.skip(1) && a[0] == b[0] {
            assert(a =~= seq![a[0]] + a.skip(1));
            assert(b =~= seq![b[0]] + b.skip(1));
        }
    } else if a.len() > 0 {
        lemma_key_irreflexive(a);
    } else if b.len() == 0 {
        assert(a =~= b);
    }
}

// --- stable sorting ---------------------------------------------------------

/// `t` with `x` placed ahead of the first item that does not precede it.
pub open spec fn placed<A>(x: A, t: Seq<A>, lt: spec_fn(A, A) -> bool) -> Seq<A>
    decreases t.len(),
{
    if t.len() > 0 && lt(t[0], x) {
        seq![t[0]] + placed(x, t.skip(1), lt)
    } else {
        seq![x] + t
    }
}

/// The items of `s` in the order `lt`; items that neither precedes the other
/// keep the order they had.
pub open spec fn sorted_by<A>(s: Seq<A>, lt: spec_fn(A, A) -> bool) -> Seq<A>
    decreases s.len(),
{
    if s.len() == 0 {
        Seq::empty()
    } else {
        placed(s[0], sorted_by(s.skip(1), lt), lt)
    }
}

/// `lt` orders items by some key: it is a strict weak order.
pub open spec fn weak_order<A>(lt: spec_fn(A, A) -> bool) -> bool {
    &&& forall|a: A| !#[trigger] lt(a, a)
    &&& forall|a: A, b: A, c: A| #[trigger] lt(a, b) && #[trigger] lt(b, c) ==> lt(a, c)
    &&& forall|a: A, b: A, c: A| #[trigger] lt(a, c) ==> #[trigger] lt(a, b) || lt(b, c)
}

/// A type whose values have a sorting order.
pub trait Ranked: View + Sized {
    /// Whether `a` sorts ahead of `b`.
    spec fn precedes(a: Self::V, b: Self::V) -> bool;

    fn before(&self, other: &Self) -> (r: bool)
        ensures
            r == Self::precedes(self@, other@),
    ;

    /// The order compares some key: it is a strict weak order.
    proof fn law_precedes(a: Self::V, b: Self::V, c: Self::V)
        ensures
            !Self::precedes(a, a),
            Self::precedes(a, b) && Self::precedes(b, c) ==> Self::precedes(a, c),
            Self::precedes(a, c) ==> Self::precedes(a, b) || Self::precedes(b, c),
    ;
}

/// The sorting order of `T` as a relation.
pub open spec fn order_of<T: Ranked>() -> spec_fn(T::V, T::V) -> bool {
    |a: T::V, b: T::V| T::precedes(a, b)
}

/// Sorts stably.
pub fn stable_sort<T: Ranked>(items: Vec<T>) -> (r: Vec<T>)
    ensures
        views(r@) == sorted_by(views(items@), order_of::<T>()),
{
    let mut rest: Vec<T> = items;
    let mut out: Vec<T> = Vec::new();
    let ghost all = views(rest@);
    let ghost lt = order_of::<T>();
    assert(all.take(all.len() as int) =~= all);
    assert(views(out@) =~= sorted_by(all.skip(all.len() as int), lt));
    while rest.len() > 0
        invariant
            lt == order_of::<T>(),
            rest@.len() <= all.len(),
            views(rest@) == all.take(rest@.len() as int),
            views(out@) == sorted_by(all.skip(rest@.len() as int), lt),
        decreases rest@.len(),
    {
        let ghost n = rest@.len() as int;
        let ghost from = rest@;
        let x: T = match rest.pop() {
            Some(x) => x,
            None => {
                return out;
            },
        };
        assert(x@ == views(from)[n - 1]);
        assert(views(rest@) =~= all.take(n - 1));
        let ghost tail = all.skip(n - 1);
        assert(tail[0] == x@);
        assert(tail.skip(1) =~= all.skip(n));
        let ghost before = out@;
        let mut i: usize = 0;
        assert(views(before).skip(0) =~= views(before));
        assert(views(before).take(0) + placed(x@, views(before), lt) =~= placed(
            x@,
            views(before),
            lt,
        ));
        while i < out.len() && out[i].before(&x)
            invariant
                out@ == before,
                lt == order_of::<T>(),
                i <= out@.len(),
                views(before).take(i as int) + placed(x@, views(before).skip(i as int), lt)
                    == placed(x@, views(before), lt),
            decreases out@.len() - i,
        {
            let ghost v = views(before);
            assert(v.skip(i as int).skip(1) =~= v.skip(i as int + 1));
            assert(v.take(i as int + 1) + placed(x@, v.skip(i as int + 1), lt) =~= v.take(i as int)
                + (seq![v[i as int]] + placed(x@, v.skip(i as int + 1), lt)));
            i += 1;
        }
        out.insert(i, x);
        assert(views(out@) =~= views(before).take(i as int) + (seq![x@] + views(before).skip(
            i as int,
        )));
    }
    assert(all.skip(0) =~= all);
    out
}

proof fn lemma_placed<A>(x: A, t: Seq<A>, lt: spec_fn(A, A) -> bool)
    ensures
        placed(x, t, lt).to_multiset() == t.to_multiset().insert(x),
        placed(x, t, lt).len() == t.len() + 1,
    decreases t.len(),
{
    broadcast use vstd::seq_lib::group_to_multiset_ensures;

    if t.len() > 0 && lt(t[0], x) {
        lemma_placed(x, t.skip(1), lt);
        vstd::seq_lib::lemma_multiset_commutative(seq![t[0]], placed(x, t.skip(1), lt));
        vstd::seq_lib::lemma_multiset_commutative(seq![t[0]], t.skip(1));
        assert(seq![t[0]] + t.skip(1) =~= t);
        assert(placed(x, t, lt).to_multiset() =~= t.to_multiset().insert(x));
    } else {
        vstd::seq_lib::lemma_multiset_commutative(seq![x], t);
        assert(seq![x] =~= Seq::<A>::empty().push(x));
        assert((seq![x] + t).to_multiset() =~= t.to_multiset().insert(x));
    }
}

/// Sorting keeps every item exactly as often as it occurs.
pub proof fn law_sort_keeps_items<A>(s: Seq<A>, lt: spec_fn(A, A) -> bool)
    ensures
        sorted_by(s, lt).to_multiset() == s.to_multiset(),
        sorted_by(s, lt).len() == s.len(),
    decreases s.len(),
{
    broadcast use vstd::seq_lib::group_to_multiset_ensures;

    if s.len() > 0 {
        law_sort_keeps_items(s.skip(1), lt);
        lemma_placed(s[0], sorted_by(s.skip(1), lt), lt);
        vstd::seq_lib::lemma_multiset_commutative(seq![s[0]], s.skip(1));
        assert(seq![s[0]] + s.skip(1) =~= s);
        assert(seq![s[0]] =~= Seq::<A>::empty().push(s[0]));
        assert(sorted_by(s, lt).to_multiset() =~= s.to_multiset());
    } else {
        assert(sorted_by(s, lt) =~= s);
    }
}

/// No item is preceded by a later one.
pub open spec fn in_order<A>(s: Seq<A>, lt: spec_fn(A, A) -> bool) -> bool {
    forall|i: int, j: int| 0 <= i < j < s.len() ==> !lt(#[trigger] s[j], #[trigger] s[i])
}

proof fn lemma_placed_in_order<A>(x: A, t: Seq<A>, lt: spec_fn(A, A) -> bool)
    requires
        weak_order(lt),
        in_order(t, lt),
    ensures
        in_order(placed(x, t, lt), lt),
        forall|k: int|
            0 <= k < placed(x, t, lt).len() ==> #[trigger] placed(x, t, lt)[k] == x || t.contains(
                placed(x, t, lt)[k],
            ),
    decreases t.len(),
{
    let p = placed(x, t, lt);
    if t.len() > 0 && lt(t[0], x) {
        let q = placed(x, t.skip(1), lt);
        lemma_placed_in_order(x, t.skip(1), lt);
        assert forall|k: int| 0 <= k < p.len() implies #[trigger] p[k] == x || t.contains(p[k]) by {
            if k == 0 {
                assert(t.contains(t[0]));
            } else {
                assert(p[k] == q[k - 1]);
                if q[k - 1] != x {
                    let m = choose|m: int|
                        0 <= m < t.skip(1).len() && t.skip(1)[m] == q[k - 1];
                    assert(t[m + 1] == p[k]);
                }
            }
        }
        assert forall|i: int, j: int| 0 <= i < j < p.len() implies !lt(
            #[trigger] p[j],
            #[trigger] p[i],
        ) by {
            assert(p[j] == q[j - 1]);
            if i == 0 {
                if q[j - 1] != x {
                    let m = choose|m: int|
                        0 <= m < t.skip(1).len() && t.skip(1)[m] == q[j - 1];
                    assert(t[m + 1] == q[j - 1]);
                } else {
                    assert(!lt(t[0], t[0]));
                }
            } else {
                assert(p[i] == q[i - 1]);
            }
        }
    } else {
        assert forall|k: int| 0 <= k < p.len() implies #[trigger] p[k] == x || t.contains(p[k]) by {
            if k > 0 {
                assert(p[k] == t[k - 1]);
            }
        }
        assert forall|i: int, j: int| 0 <= i < j < p.len() implies !lt(
            #[trigger] p[j],
            #[trigger] p[i],
        ) by {
            assert(p[j] == t[j - 1]);
            if i > 0 {
                assert(p[i] == t[i - 1]);
            } else if lt(t[j - 1], x) {
                assert(lt(t[j - 1], t[0]) || lt(t[0], x));
            }
        }
    }
}

/// Sorting by a strict weak order puts the items in that order.
pub proof fn law_sort_orders<A>(s: Seq<A>, lt: spec_fn(A, A) -> bool)
    requires
        weak_order(lt),
    ensures
        in_order(sorted_by(s, lt), lt),
    decreases s.len(),
{
    if s.len() > 0 {
        law_sort_orders(s.skip(1), lt);
        lemma_placed_in_order(s[0], sorted_by(s.skip(1), lt), lt);
    }
}

/// The sorting order of every type is a strict weak order.
pub proof fn lemma_ranked_weak<T: Ranked>()
    ensures
        weak_order(order_of::<T>()),
{
    let lt = order_of::<T>();
    assert forall|a: T::V| !#[trigger] lt(a, a) by {
        T::law_precedes(a, a, a);
    }
    assert forall|a: T::V, b: T::V, c: T::V| #[trigger] lt(a, b) && #[trigger] lt(b, c) implies lt(
        a,
        c,
    ) by {
        T::law_precedes(a, b, c);
    }
    assert forall|a: T::V, b: T::V, c: T::V| #[trigger] lt(a, c) implies #[trigger] lt(a, b) || lt(
        b,
        c,
    ) by {
        T::law_precedes(a, b, c);
    }
}

/// Sorting by a type's own order keeps the items and puts them in that order.
pub proof fn law_ranked_sort<T: Ranked>(s: Seq<T::V>)
    ensures
        sorted_by(s, order_of::<T>()).to_multiset() == s.to_multiset(),
        sorted_by(s, order_of::<T>()).len() == s.len(),
        in_order(sorted_by(s, order_of::<T>()), order_of::<T>()),
{
    lemma_ranked_weak::<T>();
    law_sort_keeps_items(s, order_of::<T>());
    law_sort_orders(s, order_of::<T>());
}

/// Every item of a sorted sequence was there before the sort.
pub proof fn law_sort_same_items<A>(s: Seq<A>, lt: spec_fn(A, A) -> bool)
    ensures
        forall|i: int|
            0 <= i < sorted_by(s, lt).len() ==> s.contains(#[trigger] sorted_by(s, lt)[i]),
{
    broadcast use vstd::seq_lib::group_to_multiset_ensures;

    let r = sorted_by(s, lt);
    law_sort_keeps_items(s, lt);
    assert forall|i: int| 0 <= i < r.len() implies s.contains(#[trigger] r[i]) by {
        assert(r.contains(r[i]));
        assert(r.to_multiset().count(r[i]) > 0);
    }
}

/// Sorting items that are all different leaves them all different.
pub proof fn law_sort_keeps_distinct<A>(s: Seq<A>, lt: spec_fn(A, A) -> bool)
    requires
        s.no_duplicates(),
    ensures
        sorted_by(s, lt).no_duplicates(),
{
    law_sort_keeps_items(s, lt);
    s.lemma_multiset_has_no_duplicates();
    sorted_by(s, lt).lemma_multiset_has_no_duplicates_conv();
}

/// The items that sort level with `x`, in the order they stand.
pub open spec fn level_with<A>(s: Seq<A>, x: A, lt: spec_fn(A, A) -> bool) -> Seq<A>
    decreases s.len(),
{
    if s.len() == 0 {
        Seq::empty()
    } else {
        let rest = level_with(s.skip(1), x, lt);
        if !lt(s[0], x) && !lt(x, s[0]) {
            seq![s[0]] + rest
        } else {
            rest
        }
    }
}

proof fn lemma_placed_stable<A>(y: A, t: Seq<A>, x: A, lt: spec_fn(A, A) -> bool)
    requires
        weak_order(lt),
    ensures
        level_with(placed(y, t, lt), x, lt) == level_with(seq![y] + t, x, lt),
    decreases t.len(),
{
    assert((seq![y] + t).skip(1) =~= t);
    if t.len() > 0 && lt(t[0], y) {
        let q = placed(y, t.skip(1), lt);
        lemma_placed_stable(y, t.skip(1), x, lt);
        assert((seq![t[0]] + q).skip(1) =~= q);
        assert((seq![y] + t.skip(1)).skip(1) =~= t.skip(1));
        let more = level_with(t.skip(1), x, lt);
        // `t[0]` and `y` are not level with each other, so not both with `x`.
        assert(lt(t[0], x) || lt(x, y));
        let t0_level = !lt(t[0], x) && !lt(x, t[0]);
        let y_level = !lt(y, x) && !lt(x, y);
        assert(level_with(t, x, lt) == if t0_level {
            seq![t[0]] + more
        } else {
            more
        });
        assert(level_with(seq![y] + t.skip(1), x, lt) == if y_level {
            seq![y] + more
        } else {
            more
        });
    }
}

/// Sorting by a strict weak order is stable: level items keep their order.
pub proof fn law_sort_is_stable<A>(s: Seq<A>, x: A, lt: spec_fn(A, A) -> bool)
    requires
        weak_order(lt),
    ensures
        level_with(sorted_by(s, lt), x, lt) == level_with(s, x, lt),
    decreases s.len(),
{
    if s.len() > 0 {
        let t = sorted_by(s.skip(1), lt);
        law_sort_is_stable(s.skip(1), x, lt);
        lemma_placed_stable(s[0], t, x, lt);
        assert((seq![s[0]] + t).skip(1) =~= t);
    }
}

// --- the best of many -------------------------------------------------------

/// The first `n` items, or all of them.
pub open spec fn first_of<A>(s: Seq<A>, n: nat) -> Seq<A> {
    if s.len() > n {
        s.take(n as int)
    } else {
        s
    }
}

/// The `n` items that sort first.
pub open spec fn best<A>(s: Seq<A>, lt: spec_fn(A, A) -> bool, n: nat) -> Seq<A> {
    first_of(sorted_by(s, lt), n)
}

/// `t` with `x` placed behind the last item that it does not precede.
spec fn placed_last<A>(x: A, t: Seq<A>, lt: spec_fn(A, A) -> bool) -> Seq<A>
    decreases t.len(),
{
    if t.len() > 0 && !lt(x, t[0]) {
        seq![t[0]] + placed_last(x, t.skip(1), lt)
    } else {
        seq![x] + t
    }
}

proof fn lemma_places_commute<A>(a: A, x: A, t: Seq<A>, lt: spec_fn(A, A) -> bool)
    requires
        weak_order(lt),
    ensures
        placed(a, placed_last(x, t, lt), lt) == placed_last(x, placed(a, t, lt), lt),
    decreases t.len(),
{
    let e = Seq::<A>::empty();
    if t.len() == 0 {
        assert(t =~= e);
        assert((seq![x] + e).skip(1) =~= e);
        assert((seq![a] + e).skip(1) =~= e);
        assert(placed(a, e, lt) =~= seq![a] + e);
        assert(placed_last(x, e, lt) =~= seq![x] + e);
        if lt(x, a) {
            assert(placed(a, seq![x] + e, lt) =~= seq![x] + (seq![a] + e));
            assert(placed_last(x, seq![a] + e, lt) =~= seq![x] + (seq![a] + e));
        } else {
            assert(placed(a, seq![x] + e, lt) =~= seq![a] + (seq![x] + e));
            assert(placed_last(x, seq![a] + e, lt) =~= seq![a] + (seq![x] + e));
        }
    } else {
        let h = t[0];
        let u = t.skip(1);
        lemma_places_commute(a, x, u, lt);
        assert((seq![x] + t).skip(1) =~= t);
        assert((seq![a] + t).skip(1) =~= t);
        let rl = placed_last(x, u, lt);
        let rp = placed(a, u, lt);
        assert((seq![h] + rl).skip(1) =~= rl);
        assert((seq![h] + rp).skip(1) =~= rp);
        if lt(h, a) && lt(x, h) {
            assert(lt(x, a));
        }
        if !lt(h, a) && !lt(x, h) {
            assert(!lt(x, a)) by {
                if lt(x, a) {
                    assert(lt(x, h) || lt(h, a));
                }
            }
        }
    }
}

/// Sorting with one more item at the end.
proof fn lemma_sort_push<A>(s: Seq<A>, x: A, lt: spec_fn(A, A) -> bool)
    requires
        weak_order(lt),
    ensures
        sorted_by(s.push(x), lt) == placed_last(x, sorted_by(s, lt), lt),
    decreases s.len(),
{
    if s.len() == 0 {
        assert(s.push(x).skip(1) =~= Seq::<A>::empty());
        assert(sorted_by(s.push(x).skip(1), lt) =~= Seq::<A>::empty());
        assert(sorted_by(s, lt) =~= Seq::<A>::empty());
    } else {
        assert(s.push(x).skip(1) =~= s.skip(1).push(x));
        lemma_sort_push(s.skip(1), x, lt);
        lemma_places_commute(s[0], x, sorted_by(s.skip(1), lt), lt);
    }
}

proof fn lemma_first_placed<A>(x: A, t: Seq<A>, lt: spec_fn(A, A) -> bool, n: nat)
    ensures
        first_of(placed_last(x, t, lt), n) == first_of(placed_last(x, first_of(t, n), lt), n),
    decreases t.len(),
{
    if t.len() > n {
        let c = first_of(t, n);
        if n == 0 {
            assert(first_of(placed_last(x, t, lt), n) =~= first_of(placed_last(x, c, lt), n));
        } else if !lt(x, t[0]) {
            lemma_first_placed(x, t.skip(1), lt, (n - 1) as nat);
            assert(c.skip(1) =~= first_of(t.skip(1), (n - 1) as nat));
            let a = placed_last(x, t.skip(1), lt);
            let b = placed_last(x, c.skip(1), lt);
            assert(first_of(seq![t[0]] + a, n) =~= seq![t[0]] + first_of(a, (n - 1) as nat));
            assert(first_of(seq![c[0]] + b, n) =~= seq![c[0]] + first_of(b, (n - 1) as nat));
        } else {
            assert(first_of(seq![x] + t, n) =~= first_of(seq![x] + c, n));
        }
    }
}

proof fn lemma_sorted_is_fixed<A>(t: Seq<A>, lt: spec_fn(A, A) -> bool)
    requires
        in_order(t, lt),
    ensures
        sorted_by(t, lt) == t,
    decreases t.len(),
{
    if t.len() > 0 {
        let u = t.skip(1);
        assert forall|i: int, j: int| 0 <= i < j < u.len() implies !lt(
            #[trigger] u[j],
            #[trigger] u[i],
        ) by {
            assert(u[i] == t[i + 1] && u[j] == t[j + 1]);
        }
        lemma_sorted_is_fixed(u, lt);
        if u.len() > 0 {
            assert(u[0] == t[1]);
        }
        assert(placed(t[0], u, lt) =~= t);
    } else {
        assert(sorted_by(t, lt) =~= t);
    }
}

/// Keeping only the best of what came so far loses nothing: the best of what
/// was kept and one more item are the best of everything.
pub proof fn law_best_so_far<A>(kept: Seq<A>, all: Seq<A>, x: A, lt: spec_fn(A, A) -> bool, n: nat)
    requires
        weak_order(lt),
        best(kept, lt, n) == best(all, lt, n),
    ensures
        best(kept.push(x), lt, n) == best(all.push(x), lt, n),
{
    lemma_sort_push(kept, x, lt);
    lemma_sort_push(all, x, lt);
    lemma_first_placed(x, sorted_by(kept, lt), lt, n);
    lemma_first_placed(x, sorted_by(all, lt), lt, n);
}

/// The best of the best are the best.
pub proof fn law_best_twice<A>(s: Seq<A>, lt: spec_fn(A, A) -> bool, n: nat)
    requires
        weak_order(lt),
    ensures
        best(best(s, lt, n), lt, n) == best(s, lt, n),
        best(s, lt, n).len() <= n,
        in_order(best(s, lt, n), lt),
{
    law_sort_orders(s, lt);
    let b = best(s, lt, n);
    assert forall|i: int, j: int| 0 <= i < j < b.len() implies !lt(#[trigger] b[j], #[trigger] b[i]) by {
        assert(b[i] == sorted_by(s, lt)[i]);
        assert(b[j] == sorted_by(s, lt)[j]);
    }
    lemma_sorted_is_fixed(b, lt);
}

/// Texts are compared by the first character in which they differ; where one
/// begins the other, the shorter comes first.
pub proof fn law_text_by_first_difference(a: Seq<char>, b: Seq<char>, k: int)
    requires
        0 <= k,
        a.len() >= k,
        b.len() >= k,
        a.take(k) == b.take(k),
    ensures
        k < a.len() && k < b.len() && a[k] < b[k] ==> text_lt(a, b) && !text_lt(b, a),
        k == a.len() && k < b.len() ==> text_lt(a, b) && !text_lt(b, a),
    decreases k,
{
    if k > 0 {
        assert(a[0] == a.take(k)[0] && b[0] == b.take(k)[0]);
        let x = a.skip(1);
        let y = b.skip(1);
        assert(x.take(k - 1) =~= y.take(k - 1)) by {
            assert forall|i: int| 0 <= i < k - 1 implies x[i] == y[i] by {
                assert(a[i + 1] == a.take(k)[i + 1] && b[i + 1] == b.take(k)[i + 1]);
            }
        }
        law_text_by_first_difference(x, y, k - 1);
    }
}

/// Keys are compared by the first number in which they differ; where one
/// begins the other, the shorter comes first.
pub proof fn law_key_by_first_difference(a: Seq<u64>, b: Seq<u64>, k: int)
    requires
        0 <= k,
        a.len() >= k,
        b.len() >= k,
        a.take(k) == b.take(k),
    ensures
        k < a.len() && k < b.len() && a[k] < b[k] ==> key_lt(a, b) && !key_lt(b, a),
        k == a.len() && k < b.len() ==> key_lt(a, b) && !key_lt(b, a),
    decreases k,
{
    if k > 0 {
        assert(a[0] == a.take(k)[0] && b[0] == b.take(k)[0]);
        let x = a.skip(1);
        let y = b.skip(1);
        assert(x.take(k - 1) =~= y.take(k - 1)) by {
            assert forall|i: int| 0 <= i < k - 1 implies x[i] == y[i] by {
                assert(a[i + 1] == a.take(k)[i + 1] && b[i + 1] == b.take(k)[i + 1]);
            }
        }
        law_key_by_first_difference(x, y, k - 1);
    }
}

/// The first `n` items are the first `n`, or all where there are no more.
pub proof fn law_first_of<A>(s: Seq<A>, n: nat, i: int)
    ensures
        s.len() <= n ==> first_of(s, n) == s,
        s.len() > n ==> first_of(s, n).len() == n,
        0 <= i < first_of(s, n).len() ==> first_of(s, n)[i] == s[i],
{
}

/// The best of some items are some of them, as many as asked for or all, in
/// order, and no item that is left out comes before one of them.
pub proof fn law_best<A>(s: Seq<A>, lt: spec_fn(A, A) -> bool, n: nat)
    requires
        weak_order(lt),
    ensures
        s.len() <= n ==> best(s, lt, n).to_multiset() == s.to_multiset(),
        s.len() > n ==> best(s, lt, n).len() == n,
        in_order(best(s, lt, n), lt),
        exists|rest: Seq<A>|
            #![trigger best(s, lt, n) + rest]
            (best(s, lt, n) + rest).to_multiset() == s.to_multiset() && forall|i: int, j: int|
                0 <= i < best(s, lt, n).len() && 0 <= j < rest.len() ==> !lt(
                    #[trigger] rest[j],
                    #[trigger] best(s, lt, n)[i],
                ),
{
    let t = sorted_by(s, lt);
    let b = best(s, lt, n);
    law_sort_keeps_items(s, lt);
    law_sort_orders(s, lt);
    let rest = t.skip(b.len() as int);
    assert(b + rest =~= t);
    assert forall|i: int, j: int| 0 <= i < b.len() && 0 <= j < rest.len() implies !lt(
        #[trigger] rest[j],
        #[trigger] b[i],
    ) by {
        assert(rest[j] == t[b.len() + j]);
        assert(b[i] == t[i]);
    }
    assert(in_order(b, lt)) by {
        assert forall|i: int, j: int| 0 <= i < j < b.len() implies !lt(
            #[trigger] b[j],
            #[trigger] b[i],
        ) by {
            assert(b[i] == t[i] && b[j] == t[j]);
        }
    }
}

} // verus!
