//! Putting things in order.

use vstd::prelude::*;

use crate::chars::{same, texts, to_chars};

verus! {

/// Something that is listed in an order.
pub trait Ordered: Sized {
    /// May this stand in front of `other`?
    spec fn before(self, other: Self) -> bool;

    fn is_before(&self, other: &Self) -> (r: bool)
        ensures
            r == self.before(*other),
    ;
}

impl Ordered for u32 {
    open spec fn before(self, other: u32) -> bool {
        self <= other
    }

    fn is_before(&self, other: &u32) -> (r: bool) {
        *self <= *other
    }
}

/// `x` put behind the last item it may stand behind.
pub open spec fn placed<T: Ordered>(s: Seq<T>, x: T) -> Seq<T>
    decreases s.len(),
{
    if s.len() == 0 {
        seq![x]
    } else if s.last().before(x) {
        s.push(x)
    } else {
        placed(s.drop_last(), x).push(s.last())
    }
}

/// The items of `s` in order; those that are equal in it keep their places
/// relative to one another.
pub open spec fn sorted<T: Ordered>(s: Seq<T>) -> Seq<T>
    decreases s.len(),
{
    if s.len() == 0 {
        Seq::empty()
    } else {
        placed(sorted(s.drop_last()), s.last())
    }
}

/// Is the order one that any two items agree on?
pub open spec fn orderly<T: Ordered>() -> bool {
    &&& forall|a: T, b: T| #[trigger] a.before(b) || b.before(a)
    &&& forall|a: T, b: T, c: T|
        #[trigger] a.before(b) && #[trigger] b.before(c) ==> a.before(c)
}

pub open spec fn in_order<T: Ordered>(s: Seq<T>) -> bool {
    forall|i: int, j: int| 0 <= i <= j < s.len() ==> (#[trigger] s[i]).before(#[trigger] s[j])
}

proof fn lemma_placed<T: Ordered>(s: Seq<T>, x: T)
    requires
        orderly::<T>(),
        in_order(s),
    ensures
        in_order(placed(s, x)),
        placed(s, x).to_multiset() == s.to_multiset().insert(x),
        placed(s, x).len() == s.len() + 1,
        forall|i: int|
            0 <= i < placed(s, x).len() ==> #[trigger] placed(s, x)[i] == x || s.contains(
                placed(s, x)[i],
            ),
    decreases s.len(),
{
    broadcast use vstd::seq_lib::group_to_multiset_ensures;

    assert(x.before(x) || x.before(x));
    if s.len() == 0 {
        assert(placed(s, x) =~= s.push(x));
    } else if s.last().before(x) {
        assert forall|i: int, j: int| 0 <= i <= j < s.push(x).len() implies (#[trigger] s.push(
            x,
        )[i]).before(#[trigger] s.push(x)[j]) by {
            if j == s.len() && i < s.len() {
                assert(s[i].before(s[s.len() - 1]));
            }
        }
        assert forall|i: int| 0 <= i < placed(s, x).len() implies #[trigger] placed(s, x)[i] == x
            || s.contains(placed(s, x)[i]) by {
            if i < s.len() {
                assert(s[i] == placed(s, x)[i]);
            }
        }
    } else {
        let t = s.drop_last();
        assert forall|i: int, j: int| 0 <= i <= j < t.len() implies (#[trigger] t[i]).before(
            #[trigger] t[j],
        ) by {
            assert(s[i].before(s[j]));
        }
        lemma_placed(t, x);
        let p = placed(t, x);
        assert(x.before(s.last()) || s.last().before(x));
        assert(s.last().before(s.last()) || s.last().before(s.last()));
        assert forall|i: int, j: int| 0 <= i <= j < p.push(s.last()).len() implies (
        #[trigger] p.push(s.last())[i]).before(#[trigger] p.push(s.last())[j]) by {
            if j == p.len() && i < p.len() {
                assert(p[i] == x || t.contains(p[i]));
                if p[i] != x {
                    let k = choose|k: int| 0 <= k < t.len() && t[k] == p[i];
                    assert(s[k].before(s[s.len() - 1]));
                }
            }
        }
        assert(s =~= t.push(s.last()));
        assert(p.push(s.last()).to_multiset() =~= s.to_multiset().insert(x));
        assert forall|i: int| 0 <= i < placed(s, x).len() implies #[trigger] placed(s, x)[i] == x
            || s.contains(placed(s, x)[i]) by {
            if i < p.len() {
                assert(placed(s, x)[i] == p[i]);
                if p[i] != x {
                    let k = choose|k: int| 0 <= k < t.len() && t[k] == p[i];
                    assert(s[k] == p[i]);
                }
            } else {
                assert(s[s.len() - 1] == placed(s, x)[i]);
            }
        }
    }
}

/// Sorting loses nothing, adds nothing, and leaves everything in order.
pub proof fn sorting_keeps_everything_in_order<T: Ordered>(s: Seq<T>)
    requires
        orderly::<T>(),
    ensures
        in_order(sorted(s)),
        sorted(s).to_multiset() == s.to_multiset(),
        sorted(s).len() == s.len(),
    decreases s.len(),
{
    broadcast use vstd::seq_lib::group_to_multiset_ensures;

    if s.len() > 0 {
        sorting_keeps_everything_in_order(s.drop_last());
        lemma_placed(sorted(s.drop_last()), s.last());
        assert(s =~= s.drop_last().push(s.last()));
    }
}

proof fn lemma_placed_at<T: Ordered>(s: Seq<T>, x: T, at: int)
    requires
        0 <= at <= s.len(),
        at > 0 ==> s[at - 1].before(x),
        forall|k: int| at <= k < s.len() ==> !(#[trigger] s[k]).before(x),
    ensures
        placed(s, x) == s.insert(at, x),
    decreases s.len(),
{
    if s.len() == 0 {
        assert(s.insert(at, x) =~= seq![x]);
    } else if at == s.len() {
        assert(s.insert(at, x) =~= s.push(x));
    } else {
        let t = s.drop_last();
        assert(!s[s.len() - 1].before(x));
        assert forall|k: int| at <= k < t.len() implies !(#[trigger] t[k]).before(x) by {
            assert(t[k] == s[k]);
        }
        lemma_placed_at(t, x, at);
        assert(s.insert(at, x) =~= t.insert(at, x).push(s.last()));
    }
}

/// Sorts, keeping items that are equal in the order where they stand relative
/// to one another.
pub fn sort<T: Ordered>(v: &mut Vec<T>)
    ensures
        final(v)@ == sorted(old(v)@),
{
    let ghost all = v@;
    let mut rest: Vec<T> = Vec::new();
    proof {
        assert(v@ + rest@.reverse() =~= all);
    }
    while v.len() > 0
        invariant
            v@ + rest@.reverse() == all,
        decreases v@.len(),
    {
        let ghost had = v@;
        let ghost kept = rest@;
        if let Some(x) = v.pop() {
            rest.push(x);
            proof {
                assert(had =~= v@.push(x));
                assert(v@ + rest@.reverse() =~= had + kept.reverse());
            }
        }
    }
    proof {
        assert(rest@.reverse() =~= all);
        assert(all.take(0) =~= Seq::<T>::empty());
    }
    let ghost mut done: int = 0;
    while rest.len() > 0
        invariant
            0 <= done <= all.len(),
            rest@.reverse() == all.skip(done),
            v@ == sorted(all.take(done)),
        decreases rest@.len(),
    {
        let ghost left = rest@;
        assert(left.reverse().len() == all.skip(done).len());
        assert(left.reverse()[0] == left.last());
        if let Some(x) = rest.pop() {
            assert(x == all[done]);
            let mut at: usize = v.len();
            while at > 0 && !v[at - 1].is_before(&x)
                invariant
                    at <= v@.len(),
                    forall|k: int| at <= k < v@.len() ==> !(#[trigger] v@[k]).before(x),
                decreases at,
            {
                at = at - 1;
            }
            proof {
                lemma_placed_at(v@, x, at as int);
                assert(all.take(done + 1).drop_last() =~= all.take(done));
                assert(all.take(done + 1).last() == x);
                let tail = all.skip(done);
                assert forall|k: int| 0 <= k < rest@.len() implies #[trigger] rest@.reverse()[k]
                    == all.skip(done + 1)[k] by {
                    assert(rest@.reverse()[k] == rest@[rest@.len() - 1 - k]);
                    assert(left.reverse()[k + 1] == left[left.len() - 1 - (k + 1)]);
                    assert(tail[k + 1] == all[done + k + 1]);
                }
                assert(rest@.reverse() =~= all.skip(done + 1));
            }
            v.insert(at, x);
            proof {
                done = done + 1;
            }
        }
    }
    assert(all.take(done) =~= all);
}

/// Neighbours that are equal, kept once.
pub open spec fn deduped(s: Seq<u32>) -> Seq<u32>
    decreases s.len(),
{
    if s.len() == 0 {
        Seq::empty()
    } else {
        let t = deduped(s.drop_last());
        if t.len() > 0 && t.last() == s.last() {
            t
        } else {
            t.push(s.last())
        }
    }
}

/// The numbers of `s`, each once, ascending.
pub open spec fn ascending(s: Seq<u32>) -> Seq<u32> {
    deduped(sorted(s))
}

proof fn lemma_deduped(s: Seq<u32>)
    requires
        in_order(s),
    ensures
        forall|i: int, j: int|
            0 <= i < j < deduped(s).len() ==> #[trigger] deduped(s)[i] < #[trigger] deduped(s)[j],
        forall|x: u32| deduped(s).contains(x) <==> s.contains(x),
        s.len() > 0 ==> deduped(s).len() > 0 && deduped(s).last() == s.last(),
    decreases s.len(),
{
    if s.len() > 0 {
        let p = s.drop_last();
        assert forall|i: int, j: int| 0 <= i <= j < p.len() implies (#[trigger] p[i]).before(
            #[trigger] p[j],
        ) by {
            assert(s[i].before(s[j]));
        }
        lemma_deduped(p);
        let t = deduped(p);
        let d = deduped(s);
        if p.len() > 0 {
            assert(s[p.len() - 1].before(s[s.len() - 1]));
            assert(t.last() <= s.last());
        }
        assert forall|i: int, j: int| 0 <= i < j < d.len() implies #[trigger] d[i]
            < #[trigger] d[j] by {
            if j == t.len() {
                assert(t[i] <= t.last());
            }
        }
        assert forall|x: u32| d.contains(x) <==> s.contains(x) by {
            if d.contains(x) {
                let k = choose|k: int| 0 <= k < d.len() && d[k] == x;
                if k < t.len() {
                    assert(t[k] == x);
                    assert(t.contains(x));
                    assert(p.contains(x));
                    let m = choose|m: int| 0 <= m < p.len() && p[m] == x;
                    assert(s[m] == x);
                } else {
                    assert(s[s.len() - 1] == x);
                }
            }
            if s.contains(x) {
                let m = choose|m: int| 0 <= m < s.len() && s[m] == x;
                if m < p.len() {
                    assert(p[m] == x);
                    assert(p.contains(x));
                    assert(t.contains(x));
                    let k = choose|k: int| 0 <= k < t.len() && t[k] == x;
                    assert(d[k] == x);
                } else {
                    assert(d[d.len() - 1] == x);
                }
            }
        }
    }
}

/// `ascending` lists exactly the numbers it was given, strictly ascending.
pub proof fn ascending_lists_each_once(s: Seq<u32>)
    ensures
        forall|i: int, j: int|
            0 <= i < j < ascending(s).len() ==> #[trigger] ascending(s)[i]
                < #[trigger] ascending(s)[j],
        forall|x: u32| ascending(s).contains(x) <==> s.contains(x),
{
    broadcast use vstd::seq_lib::group_to_multiset_ensures;

    sorting_keeps_everything_in_order(s);
    lemma_deduped(sorted(s));
    assert forall|x: u32| sorted(s).contains(x) <==> s.contains(x) by {
        assert(sorted(s).contains(x) <==> sorted(s).to_multiset().count(x) > 0);
        assert(s.contains(x) <==> s.to_multiset().count(x) > 0);
    }
}

fn dedup(v: &Vec<u32>) -> (r: Vec<u32>)
    ensures
        r@ == deduped(v@),
{
    let mut out: Vec<u32> = Vec::new();
    let mut i: usize = 0;
    assert(v@.take(0) =~= Seq::<u32>::empty());
    while i < v.len()
        invariant
            i <= v@.len(),
            out@ == deduped(v@.take(i as int)),
        decreases v@.len() - i,
    {
        let x: u32 = v[i];
        proof {
            assert(v@.take(i + 1).drop_last() =~= v@.take(i as int));
            assert(v@.take(i + 1).last() == x);
        }
        if !(out.len() > 0 && out[out.len() - 1] == x) {
            out.push(x);
        }
        i = i + 1;
    }
    assert(v@.take(i as int) =~= v@);
    out
}

/// Sorts numbers and keeps each once.
pub fn ascend(v: Vec<u32>) -> (r: Vec<u32>)
    ensures
        r@ == ascending(v@),
{
    let mut s: Vec<u32> = v;
    sort(&mut s);
    dedup(&s)
}

pub open spec fn strictly_ascending(s: Seq<u32>) -> bool {
    forall|i: int, j: int| 0 <= i < j < s.len() ==> #[trigger] s[i] < #[trigger] s[j]
}

/// The numbers of a finite set, ascending.
pub open spec fn listing_of(set: Set<u32>) -> Seq<u32> {
    choose|s: Seq<u32>| strictly_ascending(s) && s.to_set() == set
}

/// Numbers can be listed in ascending order in one way only.
pub proof fn one_ascending_listing(a: Seq<u32>, b: Seq<u32>)
    requires
        strictly_ascending(a),
        strictly_ascending(b),
        forall|x: u32| a.contains(x) <==> b.contains(x),
    ensures
        a == b,
    decreases a.len(),
{
    if a.len() == 0 {
        if b.len() > 0 {
            assert(b.contains(b[0]));
        }
        assert(a =~= b);
    } else {
        assert(a.contains(a.last()));
        assert(b.contains(a.last()));
        assert(b.contains(b.last()));
        assert(a.contains(b.last()));
        assert(a.last() == b.last());
        let ta = a.drop_last();
        let tb = b.drop_last();
        assert forall|x: u32| ta.contains(x) <==> tb.contains(x) by {
            if ta.contains(x) {
                let k = choose|k: int| 0 <= k < ta.len() && ta[k] == x;
                assert(a[k] == x && a[k] < a.last());
                assert(a.contains(x));
                let m = choose|m: int| 0 <= m < b.len() && b[m] == x;
                assert(tb[m] == x);
            }
            if tb.contains(x) {
                let k = choose|k: int| 0 <= k < tb.len() && tb[k] == x;
                assert(b[k] == x && b[k] < b.last());
                assert(b.contains(x));
                let m = choose|m: int| 0 <= m < a.len() && a[m] == x;
                assert(ta[m] == x);
            }
        }
        assert forall|i: int, j: int| 0 <= i < j < ta.len() implies #[trigger] ta[i]
            < #[trigger] ta[j] by {
            assert(a[i] < a[j]);
        }
        assert forall|i: int, j: int| 0 <= i < j < tb.len() implies #[trigger] tb[i]
            < #[trigger] tb[j] by {
            assert(b[i] < b[j]);
        }
        one_ascending_listing(ta, tb);
        assert(a =~= ta.push(a.last()));
        assert(b =~= tb.push(b.last()));
    }
}

pub proof fn lemma_listing_of(s: Seq<u32>)
    requires
        strictly_ascending(s),
    ensures
        listing_of(s.to_set()) == s,
{
    let l = listing_of(s.to_set());
    assert forall|x: u32| l.contains(x) <==> s.contains(x) by {
        assert(l.to_set().contains(x) <==> s.to_set().contains(x));
    }
    one_ascending_listing(l, s);
}

/// Texts in the order of their characters' code points.
pub open spec fn text_before(a: Seq<char>, b: Seq<char>) -> bool
    decreases a.len(),
{
    if a.len() == 0 {
        true
    } else if b.len() == 0 {
        false
    } else if a[0] == b[0] {
        text_before(a.skip(1), b.skip(1))
    } else {
        a[0] < b[0]
    }
}

pub fn chars_before(a: &[char], b: &[char]) -> (r: bool)
    ensures
        r == text_before(a@, b@),
{
    let mut i: usize = 0;
    assert(a@.skip(0) =~= a@ && b@.skip(0) =~= b@);
    while i < a.len()
        invariant
            i <= a@.len(),
            i <= b@.len(),
            text_before(a@, b@) == text_before(a@.skip(i as int), b@.skip(i as int)),
        decreases a@.len() - i,
    {
        if i >= b.len() {
            return false;
        }
        if a[i] != b[i] {
            return a[i] < b[i];
        }
        proof {
            assert(a@.skip(i as int).skip(1) =~= a@.skip(i + 1));
            assert(b@.skip(i as int).skip(1) =~= b@.skip(i + 1));
        }
        i = i + 1;
    }
    true
}

pub fn texts_before(a: &str, b: &str) -> (r: bool)
    ensures
        r == text_before(a@, b@),
{
    chars_before(&to_chars(a), &to_chars(b))
}

/// Text order is total, transitive, and only equal texts stand before one
/// another.
pub proof fn text_order(a: Seq<char>, b: Seq<char>, c: Seq<char>)
    ensures
        text_before(a, a),
        text_before(a, b) || text_before(b, a),
        text_before(a, b) && text_before(b, a) ==> a == b,
        text_before(a, b) && text_before(b, c) ==> text_before(a, c),
    decreases a.len(),
{
    if a.len() > 0 {
        text_order(
            a.skip(1),
            if b.len() > 0 {
                b.skip(1)
            } else {
                b
            },
            if c.len() > 0 {
                c.skip(1)
            } else {
                c
            },
        );
        if b.len() > 0 && a[0] == b[0] && a.skip(1) == b.skip(1) {
            assert(a =~= seq![a[0]] + a.skip(1));
            assert(b =~= seq![b[0]] + b.skip(1));
        }
    } else if b.len() == 0 {
        assert(a =~= b);
    }
}

// ---- texts, each once ----

/// Texts in order, none of them twice.
pub open spec fn texts_ascending(s: Seq<Seq<char>>) -> bool {
    forall|i: int, j: int|
        0 <= i < j < s.len() ==> text_before(#[trigger] s[i], #[trigger] s[j]) && s[i] != s[j]
}

/// The texts of a finite set in order.
pub open spec fn text_listing(set: Set<Seq<char>>) -> Seq<Seq<char>> {
    choose|s: Seq<Seq<char>>| texts_ascending(s) && s.to_set() == set
}

/// Texts can be listed in order, each once, in one way only.
pub proof fn one_text_listing(a: Seq<Seq<char>>, b: Seq<Seq<char>>)
    requires
        texts_ascending(a),
        texts_ascending(b),
        forall|x: Seq<char>| a.contains(x) <==> b.contains(x),
    ensures
        a == b,
    decreases a.len(),
{
    if a.len() == 0 {
        if b.len() > 0 {
            assert(b.contains(b[0]));
        }
        assert(a =~= b);
    } else {
        let la = a[a.len() - 1];
        assert(a.contains(la));
        assert(b.contains(la));
        let lb = b[b.len() - 1];
        assert(b.contains(lb));
        assert(a.contains(lb));
        assert(la == lb) by {
            let k = choose|k: int| 0 <= k < b.len() && b[k] == la;
            let m = choose|m: int| 0 <= m < a.len() && a[m] == lb;
            if la != lb {
                assert(text_before(b[k], b[b.len() - 1]));
                assert(text_before(a[m], a[a.len() - 1]));
                text_order(la, lb, la);
            }
        }
        let ta = a.drop_last();
        let tb = b.drop_last();
        assert forall|x: Seq<char>| ta.contains(x) <==> tb.contains(x) by {
            if ta.contains(x) {
                let k = choose|k: int| 0 <= k < ta.len() && ta[k] == x;
                assert(a[k] == x && a[k] != la);
                assert(a.contains(x));
                let m = choose|m: int| 0 <= m < b.len() && b[m] == x;
                assert(tb[m] == x);
            }
            if tb.contains(x) {
                let k = choose|k: int| 0 <= k < tb.len() && tb[k] == x;
                assert(b[k] == x && b[k] != lb);
                assert(b.contains(x));
                let m = choose|m: int| 0 <= m < a.len() && a[m] == x;
                assert(ta[m] == x);
            }
        }
        assert forall|i: int, j: int| 0 <= i < j < ta.len() implies text_before(
            #[trigger] ta[i],
            #[trigger] ta[j],
        ) && ta[i] != ta[j] by {
            assert(text_before(a[i], a[j]));
        }
        assert forall|i: int, j: int| 0 <= i < j < tb.len() implies text_before(
            #[trigger] tb[i],
            #[trigger] tb[j],
        ) && tb[i] != tb[j] by {
            assert(text_before(b[i], b[j]));
        }
        one_text_listing(ta, tb);
        assert(a =~= ta.push(la));
        assert(b =~= tb.push(lb));
    }
}

pub proof fn lemma_text_listing(s: Seq<Seq<char>>)
    requires
        texts_ascending(s),
    ensures
        text_listing(s.to_set()) == s,
{
    let l = text_listing(s.to_set());
    assert forall|x: Seq<char>| l.contains(x) <==> s.contains(x) by {
        assert(l.to_set().contains(x) <==> s.to_set().contains(x));
    }
    one_text_listing(l, s);
}

/// Puts a text where it belongs, unless it is there.
pub fn insert_text(v: &mut Vec<String>, t: &str)
    requires
        texts_ascending(texts(old(v)@)),
    ensures
        texts_ascending(texts(final(v)@)),
        texts(final(v)@).to_set() == texts(old(v)@).to_set().insert(t@),
{
    let ghost before = texts(v@);
    let mut at: usize = v.len();
    assert(before.len() == v@.len());
    while at > 0
        invariant
            at <= v@.len(),
            before == texts(v@),
            before == texts(old(v)@),
            texts_ascending(before),
            forall|k: int|
                at <= k < before.len() ==> text_before(t@, #[trigger] before[k]) && before[k]
                    != t@,
        ensures
            at <= v@.len(),
            forall|k: int|
                at <= k < before.len() ==> text_before(t@, #[trigger] before[k]) && before[k]
                    != t@,
            at > 0 ==> text_before(before[at - 1], t@) && before[at - 1] != t@,
            before == texts(v@),
        decreases at,
    {
        assert(before[at - 1] == v@[at - 1]@);
        if same(&v[at - 1], t) {
            proof {
                assert(before.contains(t@));
                assert(before.to_set().insert(t@) =~= before.to_set());
            }
            return ;
        }
        if texts_before(&v[at - 1], t) {
            break;
        }
        proof {
            text_order(before[at - 1], t@, t@);
        }
        at = at - 1;
    }
    v.insert(at, t.to_owned());
    proof {
        let after = texts(v@);
        assert(after =~= before.insert(at as int, t@));
        assert forall|i: int, j: int| 0 <= i < j < after.len() implies text_before(
            #[trigger] after[i],
            #[trigger] after[j],
        ) && after[i] != after[j] by {
            let bi: int = if i < at {
                i
            } else {
                i - 1
            };
            let bj: int = if j < at {
                j
            } else {
                j - 1
            };
            if i != at && j != at {
                assert(after[i] == before[bi] && after[j] == before[bj]);
            } else if i == at {
                assert(after[j] == before[bj]);
            } else {
                assert(after[i] == before[bi]);
                text_order(before[bi], before[at - 1], t@);
                if before[bi] == t@ {
                    text_order(before[at - 1], t@, t@);
                    assert(text_before(before[bi], before[at - 1]));
                }
            }
        }
        assert forall|x: Seq<char>|
            after.to_set().contains(x) <==> before.to_set().insert(t@).contains(x) by {
            if after.contains(x) {
                let k = choose|k: int| 0 <= k < after.len() && after[k] == x;
                if k < at {
                    assert(before[k] == x);
                } else if k > at {
                    assert(before[k - 1] == x);
                }
            }
            if before.contains(x) {
                let k = choose|k: int| 0 <= k < before.len() && before[k] == x;
                if k < at {
                    assert(after[k] == x);
                } else {
                    assert(after[k + 1] == x);
                }
            }
            assert(after[at as int] == t@);
        }
        assert(after.to_set() =~= before.to_set().insert(t@));
    }
}

/// A text put where it belongs in an ordered list.
spec fn put_in(s: Seq<Seq<char>>, t: Seq<char>) -> Seq<Seq<char>>
    decreases s.len(),
{
    if s.len() == 0 {
        seq![t]
    } else if text_before(s.last(), t) {
        s.push(t)
    } else {
        put_in(s.drop_last(), t).push(s.last())
    }
}

proof fn lemma_put_in(s: Seq<Seq<char>>, t: Seq<char>)
    requires
        texts_ascending(s),
        !s.contains(t),
    ensures
        texts_ascending(put_in(s, t)),
        forall|x: Seq<char>| #[trigger] put_in(s, t).contains(x) <==> s.contains(x) || x == t,
    decreases s.len(),
{
    let r = put_in(s, t);
    if s.len() == 0 {
        assert(r[0] == t);
    } else if text_before(s.last(), t) {
        assert(s.contains(s.last()));
        assert forall|i: int, j: int| 0 <= i < j < r.len() implies text_before(
            #[trigger] r[i],
            #[trigger] r[j],
        ) && r[i] != r[j] by {
            if j == s.len() {
                assert(s.contains(s[i]));
                if i < s.len() - 1 {
                    assert(text_before(s[i], s[s.len() - 1]));
                    text_order(s[i], s.last(), t);
                }
            } else {
                assert(r[i] == s[i] && r[j] == s[j]);
            }
        }
        assert forall|x: Seq<char>| #[trigger] r.contains(x) <==> s.contains(x) || x == t by {
            if s.contains(x) {
                let k = s.index_of(x);
                assert(r[k] == x);
            }
            if x == t {
                assert(r[s.len() as int] == t);
            }
            if r.contains(x) && x != t {
                let k = r.index_of(x);
                assert(s[k] == x);
            }
        }
    } else {
        let front = s.drop_last();
        let f = put_in(front, t);
        assert forall|i: int, j: int| 0 <= i < j < front.len() implies text_before(
            #[trigger] front[i],
            #[trigger] front[j],
        ) && front[i] != front[j] by {
            assert(front[i] == s[i] && front[j] == s[j]);
        }
        assert(!front.contains(t)) by {
            if front.contains(t) {
                let k = front.index_of(t);
                assert(s[k] == t);
                assert(s.contains(t));
            }
        }
        lemma_put_in(front, t);
        text_order(s.last(), t, t);
        assert forall|i: int, j: int| 0 <= i < j < r.len() implies text_before(
            #[trigger] r[i],
            #[trigger] r[j],
        ) && r[i] != r[j] by {
            if j == f.len() {
                assert(f.contains(f[i]));
                if f[i] == t {
                    assert(s.contains(s.last()));
                } else {
                    let k = front.index_of(f[i]);
                    assert(s[k] == f[i]);
                    assert(text_before(s[k], s[s.len() - 1]) && s[k] != s[s.len() - 1]);
                }
            } else {
                assert(r[i] == f[i] && r[j] == f[j]);
            }
        }
        assert forall|x: Seq<char>| #[trigger] r.contains(x) <==> s.contains(x) || x == t by {
            if s.contains(x) {
                let k = s.index_of(x);
                if k < front.len() {
                    assert(front[k] == x);
                    assert(front.contains(x));
                    assert(f.contains(x));
                    let m = f.index_of(x);
                    assert(r[m] == x);
                } else {
                    assert(r[f.len() as int] == x);
                }
            }
            if x == t {
                assert(f.contains(t));
                let m = f.index_of(t);
                assert(r[m] == t);
            }
            if r.contains(x) {
                let m = r.index_of(x);
                if m < f.len() {
                    assert(f[m] == x);
                    assert(f.contains(x));
                    if x != t {
                        let k = front.index_of(x);
                        assert(s[k] == x);
                    }
                } else {
                    assert(s[s.len() - 1] == x);
                }
            }
        }
    }
}

proof fn lemma_listing_exists(set: Set<Seq<char>>) -> (s: Seq<Seq<char>>)
    requires
        set.finite(),
    ensures
        texts_ascending(s),
        s.to_set() == set,
    decreases set.len(),
{
    if set.is_empty() {
        let s = Seq::<Seq<char>>::empty();
        assert(s.to_set() =~= set);
        s
    } else {
        let t = set.choose();
        let rest = lemma_listing_exists(set.remove(t));
        assert(!rest.contains(t)) by {
            assert(rest.to_set().contains(t) == rest.contains(t));
        }
        lemma_put_in(rest, t);
        let s = put_in(rest, t);
        assert forall|x: Seq<char>| s.to_set().contains(x) <==> set.contains(x) by {
            assert(s.contains(x) <==> rest.contains(x) || x == t);
            assert(rest.to_set().contains(x) == rest.contains(x));
        }
        assert(s.to_set() =~= set);
        s
    }
}

/// The listing of a finite set holds each of its texts once, in order.
pub proof fn a_finite_set_is_listed(set: Set<Seq<char>>)
    requires
        set.finite(),
    ensures
        texts_ascending(text_listing(set)),
        text_listing(set).to_set() == set,
{
    let s = lemma_listing_exists(set);
    assert(texts_ascending(s) && s.to_set() == set);
}

proof fn lemma_listed_below(set: Set<u32>, bound: nat) -> (s: Seq<u32>)
    ensures
        strictly_ascending(s),
        forall|x: u32| #[trigger] s.contains(x) <==> set.contains(x) && x < bound,
    decreases bound,
{
    if bound == 0 {
        Seq::empty()
    } else {
        let n = (bound - 1) as nat;
        let t = lemma_listed_below(set, n);
        if n <= u32::MAX && set.contains(n as u32) {
            let s = t.push(n as u32);
            assert forall|x: u32| #[trigger] s.contains(x) <==> set.contains(x) && x < bound by {
                if s.contains(x) {
                    let k = choose|k: int| 0 <= k < s.len() && s[k] == x;
                    if k < t.len() {
                        assert(t[k] == x);
                        assert(t.contains(x));
                    }
                }
                if set.contains(x) && x < bound {
                    if x < n {
                        assert(t.contains(x));
                        let k = choose|k: int| 0 <= k < t.len() && t[k] == x;
                        assert(s[k] == x);
                    } else {
                        assert(s[s.len() - 1] == x);
                    }
                }
            }
            assert forall|i: int, j: int| 0 <= i < j < s.len() implies #[trigger] s[i]
                < #[trigger] s[j] by {
                if j == t.len() {
                    assert(s[i] == t[i]);
                    assert(t.contains(t[i]));
                }
            }
            s
        } else {
            assert forall|x: u32| #[trigger] t.contains(x) <==> set.contains(x) && x < bound by {
                if set.contains(x) && x < bound {
                    assert(x as nat != n);
                }
            }
            t
        }
    }
}

/// The listing of a set of numbers holds each of them once, ascending.
pub proof fn a_set_of_numbers_is_listed(set: Set<u32>)
    ensures
        strictly_ascending(listing_of(set)),
        forall|x: u32| #[trigger] listing_of(set).contains(x) <==> set.contains(x),
{
    let s = lemma_listed_below(set, (u32::MAX + 1) as nat);
    assert forall|x: u32| s.to_set().contains(x) <==> set.contains(x) by {
        assert(s.contains(x) <==> set.contains(x));
    }
    assert(s.to_set() =~= set);
    assert(strictly_ascending(s) && s.to_set() == set);
    let l = listing_of(set);
    assert forall|x: u32| #[trigger] l.contains(x) <==> set.contains(x) by {
        assert(l.to_set().contains(x) <==> set.contains(x));
    }
}

/// A set of numbers with a member has a size.
pub(crate) proof fn lemma_some_number(set: Set<u32>, x: u32)
    requires
        set.contains(x),
    ensures
        set.len() > 0,
{
    let s = lemma_listed_below(set, (u32::MAX + 1) as nat);
    assert forall|x: u32| s.to_set().contains(x) <==> set.contains(x) by {
        assert(s.contains(x) <==> set.contains(x));
    }
    assert(s.to_set() =~= set);
    s.lemma_cardinality_of_set();
    vstd::seq_lib::seq_to_set_is_finite(s);
    vstd::set_lib::lemma_set_empty_equivalency_len(set);
}

} // verus!
