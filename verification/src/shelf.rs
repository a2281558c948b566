//! Things kept under ids, each id once, listed by id.

use vstd::prelude::*;

use crate::chars::same;
use crate::order::{lemma_text_listing, text_before, text_listing, text_order, texts_ascending, texts_before};

verus! {

/// Something that is kept under an id.
pub trait Held: Sized {
    /// What it is, as contracts speak of it.
    type V;

    spec fn key(&self) -> Seq<char>;

    spec fn shown(&self) -> Self::V;

    fn id(&self) -> (r: &str)
        ensures
            r@ == self.key(),
    ;
}

pub open spec fn keys<T: Held>(s: Seq<T>) -> Seq<Seq<char>> {
    s.map_values(|t: T| t.key())
}

pub open spec fn all_shown<T: Held>(s: Seq<T>) -> Seq<T::V> {
    s.map_values(|t: T| t.shown())
}

/// What is kept under which id.
pub open spec fn held<T: Held>(s: Seq<T>) -> Map<Seq<char>, T::V>
    decreases s.len(),
{
    if s.len() == 0 {
        Map::empty()
    } else {
        held(s.drop_last()).insert(s.last().key(), s.last().shown())
    }
}

/// Is each id there once, and are they in order?
pub open spec fn shelved<T: Held>(s: Seq<T>) -> bool {
    texts_ascending(keys(s))
}

/// What is kept, by ascending id.
pub open spec fn listed<V>(m: Map<Seq<char>, V>) -> Seq<V> {
    text_listing(m.dom()).map_values(|id: Seq<char>| m[id])
}

proof fn lemma_drop<T: Held>(s: Seq<T>)
    requires
        shelved(s),
        s.len() > 0,
    ensures
        shelved(s.drop_last()),
{
    let k = keys(s);
    let d = keys(s.drop_last());
    assert forall|i: int, j: int| 0 <= i < j < d.len() implies text_before(
        #[trigger] d[i],
        #[trigger] d[j],
    ) && d[i] != d[j] by {
        assert(d[i] == k[i] && d[j] == k[j]);
    }
}

/// Finitely many ids are held.
pub proof fn finitely_many<T: Held>(s: Seq<T>)
    ensures
        held(s).dom().finite(),
    decreases s.len(),
{
    if s.len() > 0 {
        finitely_many(s.drop_last());
        assert(held(s).dom() =~= held(s.drop_last()).dom().insert(s.last().key()));
    }
}

pub proof fn lemma_held<T: Held>(s: Seq<T>)
    requires
        shelved(s),
    ensures
        held(s).dom() == keys(s).to_set(),
        forall|i: int|
            0 <= i < s.len() ==> held(s).contains_key((#[trigger] s[i]).key()) && held(
                s,
            )[s[i].key()] == s[i].shown(),
    decreases s.len(),
{
    let k = keys(s);
    if s.len() > 0 {
        let t = s.drop_last();
        lemma_drop(s);
        lemma_held(t);
        assert forall|i: int| 0 <= i < s.len() implies held(s).contains_key(
            (#[trigger] s[i]).key(),
        ) && held(s)[s[i].key()] == s[i].shown() by {
            if i < t.len() {
                assert(t[i] == s[i]);
                assert(k[i] == s[i].key());
                assert(k[s.len() - 1] == s.last().key());
            }
        }
        assert(k =~= keys(t).push(s.last().key()));
        assert forall|x: Seq<char>| keys(s).to_set().contains(x) <==> held(s).dom().contains(x) by {
            if keys(s).to_set().contains(x) {
                let i = choose|i: int| 0 <= i < k.len() && k[i] == x;
                assert(s[i].key() == x);
            }
            if held(s).dom().contains(x) {
                if x == s.last().key() {
                    assert(k[s.len() - 1] == x);
                } else {
                    assert(keys(t).to_set().contains(x));
                    let i = choose|i: int| 0 <= i < keys(t).len() && keys(t)[i] == x;
                    assert(k[i] == x);
                }
            }
        }
        assert(held(s).dom() =~= keys(s).to_set());
    } else {
        assert(held(s).dom() =~= keys(s).to_set());
    }
}

/// What is kept is listed in the order it stands in.
pub proof fn lemma_listed<T: Held>(s: Seq<T>)
    requires
        shelved(s),
    ensures
        listed(held(s)) == all_shown(s),
{
    lemma_held(s);
    lemma_text_listing(keys(s));
    let l = listed(held(s));
    assert forall|i: int| 0 <= i < s.len() implies l[i] == #[trigger] all_shown(s)[i] by {
        assert(keys(s)[i] == s[i].key());
    }
    assert(l =~= all_shown(s));
}

/// Where something stands.
pub fn find<T: Held>(v: &Vec<T>, id: &str) -> (r: Option<usize>)
    requires
        shelved(v@),
    ensures
        match r {
            Some(i) => i < v@.len() && v@[i as int].key() == id@ && held(v@).contains_key(id@) && held(
                v@,
            )[id@] == v@[i as int].shown(),
            None => !held(v@).contains_key(id@),
        },
{
    proof {
        lemma_held(v@);
    }
    let mut i: usize = 0;
    while i < v.len()
        invariant
            i <= v@.len(),
            shelved(v@),
            held(v@).dom() == keys(v@).to_set(),
            forall|k: int|
                0 <= k < v@.len() ==> held(v@).contains_key((#[trigger] v@[k]).key()) && held(
                    v@,
                )[v@[k].key()] == v@[k].shown(),
            forall|k: int| 0 <= k < i ==> (#[trigger] v@[k]).key() != id@,
        decreases v@.len() - i,
    {
        if same(v[i].id(), id) {
            return Some(i);
        }
        i = i + 1;
    }
    proof {
        if held(v@).contains_key(id@) {
            assert(keys(v@).to_set().contains(id@));
            let k = choose|k: int| 0 <= k < keys(v@).len() && keys(v@)[k] == id@;
            assert(v@[k].key() == id@);
        }
    }
    None
}

proof fn lemma_update<T: Held>(s: Seq<T>, at: int, x: T)
    requires
        shelved(s),
        0 <= at < s.len(),
        s[at].key() == x.key(),
    ensures
        shelved(s.update(at, x)),
        held(s.update(at, x)) == held(s).insert(x.key(), x.shown()),
{
    let t = s.update(at, x);
    assert(keys(t) =~= keys(s));
    lemma_held(s);
    lemma_held(t);
    let a = held(t);
    let b = held(s).insert(x.key(), x.shown());
    assert(t[at].key() == x.key());
    assert(a.dom() =~= b.dom());
    assert forall|k: Seq<char>| a.contains_key(k) implies #[trigger] a[k] == b[k] by {
        assert(keys(t).to_set().contains(k));
        let i = choose|i: int| 0 <= i < keys(t).len() && keys(t)[i] == k;
        assert(t[i].key() == k);
        assert(s[i].key() == k);
        if i != at {
            assert(t[i] == s[i]);
            assert(keys(s)[i] != keys(s)[at]);
        }
    }
    assert(a =~= b);
}

proof fn lemma_insert<T: Held>(s: Seq<T>, at: int, x: T)
    requires
        shelved(s),
        0 <= at <= s.len(),
        forall|k: int|
            at <= k < s.len() ==> text_before(x.key(), #[trigger] keys(s)[k]) && keys(s)[k]
                != x.key(),
        at > 0 ==> text_before(keys(s)[at - 1], x.key()) && keys(s)[at - 1] != x.key(),
    ensures
        shelved(s.insert(at, x)),
        held(s.insert(at, x)) == held(s).insert(x.key(), x.shown()),
{
    let t = s.insert(at, x);
    let before = keys(s);
    let after = keys(t);
    assert(after =~= before.insert(at, x.key()));
    assert forall|i: int, j: int| 0 <= i < j < after.len() implies text_before(
        #[trigger] after[i],
        #[trigger] after[j],
    ) && after[i] != after[j] by {
        let bi: int = if i < at {
            i
        } else {
            i - 1
        };
        let bj: int = if j < at {
            j
        } else {
            j - 1
        };
        if i != at && j != at {
            assert(after[i] == before[bi] && after[j] == before[bj]);
        } else if i == at {
            assert(after[j] == before[bj]);
        } else {
            assert(after[i] == before[bi]);
            text_order(before[bi], before[at - 1], x.key());
            if bi < at - 1 {
                assert(text_before(before[bi], before[at - 1]));
                text_order(before[at - 1], x.key(), x.key());
            }
        }
    }
    lemma_held(s);
    lemma_held(t);
    let a = held(t);
    let b = held(s).insert(x.key(), x.shown());
    assert forall|k: Seq<char>| a.dom().contains(k) <==> b.dom().contains(k) by {
        if a.dom().contains(k) {
            assert(after.to_set().contains(k));
            let i = choose|i: int| 0 <= i < after.len() && after[i] == k;
            if i < at {
                assert(before[i] == k);
            } else if i > at {
                assert(before[i - 1] == k);
            }
        }
        if b.dom().contains(k) {
            if k == x.key() {
                assert(after[at] == k);
            } else {
                assert(before.to_set().contains(k));
                let i = choose|i: int| 0 <= i < before.len() && before[i] == k;
                if i < at {
                    assert(after[i] == k);
                } else {
                    assert(after[i + 1] == k);
                }
            }
        }
    }
    assert(a.dom() =~= b.dom());
    assert forall|k: Seq<char>| a.contains_key(k) implies #[trigger] a[k] == b[k] by {
        assert(after.to_set().contains(k));
        let i = choose|i: int| 0 <= i < after.len() && after[i] == k;
        assert(t[i].key() == k);
        if i < at {
            assert(t[i] == s[i]);
            assert(after[i] != after[at]);
        } else if i > at {
            assert(t[i] == s[i - 1]);
            assert(after[at] != after[i]);
        } else {
            assert(t[i] == x);
        }
    }
    assert(a =~= b);
}

proof fn lemma_remove<T: Held>(s: Seq<T>, at: int)
    requires
        shelved(s),
        0 <= at < s.len(),
    ensures
        shelved(s.remove(at)),
        held(s.remove(at)) == held(s).remove(s[at].key()),
{
    let t = s.remove(at);
    let before = keys(s);
    let after = keys(t);
    assert forall|i: int| 0 <= i < t.len() implies #[trigger] t[i] == (if i < at {
        s[i]
    } else {
        s[i + 1]
    }) by {}
    assert forall|i: int, j: int| 0 <= i < j < after.len() implies text_before(
        #[trigger] after[i],
        #[trigger] after[j],
    ) && after[i] != after[j] by {
        let bi: int = if i < at {
            i
        } else {
            i + 1
        };
        let bj: int = if j < at {
            j
        } else {
            j + 1
        };
        assert(t[i] == s[bi] && t[j] == s[bj]);
        assert(after[i] == before[bi] && after[j] == before[bj]);
    }
    lemma_held(s);
    lemma_held(t);
    let a = held(t);
    let b = held(s).remove(s[at].key());
    assert forall|k: Seq<char>| a.dom().contains(k) <==> b.dom().contains(k) by {
        if a.dom().contains(k) {
            assert(after.to_set().contains(k));
            let i = choose|i: int| 0 <= i < after.len() && after[i] == k;
            let bi: int = if i < at {
                i
            } else {
                i + 1
            };
            assert(t[i] == s[bi]);
            assert(before[bi] == k);
            assert(before[at] == s[at].key());
        }
        if b.dom().contains(k) {
            assert(before.to_set().contains(k));
            let i = choose|i: int| 0 <= i < before.len() && before[i] == k;
            let ai: int = if i < at {
                i
            } else {
                i - 1
            };
            assert(before[at] == s[at].key());
            assert(t[ai] == s[i]);
            assert(after[ai] == k);
        }
    }
    assert(a.dom() =~= b.dom());
    assert forall|k: Seq<char>| a.contains_key(k) implies #[trigger] a[k] == b[k] by {
        assert(after.to_set().contains(k));
        let i = choose|i: int| 0 <= i < after.len() && after[i] == k;
        let bi: int = if i < at {
            i
        } else {
            i + 1
        };
        assert(t[i] == s[bi]);
        assert(s[bi].key() == k);
        assert(t[i].key() == k);
    }
    assert(a =~= b);
}

/// Keeps something under its id, in place of what was there.
pub fn put<T: Held>(v: &mut Vec<T>, x: T)
    requires
        shelved(old(v)@),
    ensures
        shelved(final(v)@),
        held(final(v)@) == held(old(v)@).insert(x.key(), x.shown()),
{
    let ghost start = v@;
    let ghost before = keys(v@);
    let mut at: usize = v.len();
    assert(before.len() == v@.len());
    while at > 0
        invariant_except_break
            at <= v@.len(),
            v@ == start,
            before == keys(v@),
            shelved(v@),
            forall|k: int|
                at <= k < before.len() ==> text_before(x.key(), #[trigger] before[k]) && before[k]
                    != x.key(),
        ensures
            at <= v@.len(),
            v@ == start,
            before == keys(v@),
            forall|k: int|
                at <= k < before.len() ==> text_before(x.key(), #[trigger] before[k]) && (at > 0 && k
                    == at - 1 || before[k] != x.key()),
            at > 0 ==> text_before(before[at - 1], x.key()),
        decreases at,
    {
        assert(before[at - 1] == v@[at - 1].key());
        if texts_before(v[at - 1].id(), x.id()) {
            break;
        }
        proof {
            text_order(before[at - 1], x.key(), x.key());
        }
        at = at - 1;
    }
    if at > 0 {
        assert(before[at - 1] == v@[at - 1].key());
        if same(v[at - 1].id(), x.id()) {
            proof {
                lemma_update(start, at - 1, x);
            }
            v.set(at - 1, x);
            return;
        }
    }
    proof {
        lemma_insert(start, at as int, x);
    }
    v.insert(at, x);
}

/// Lets go of what is kept under an id, if anything is.
pub fn drop_id<T: Held>(v: &mut Vec<T>, id: &str) -> (r: Option<T>)
    requires
        shelved(old(v)@),
    ensures
        shelved(final(v)@),
        held(final(v)@) == held(old(v)@).remove(id@),
        match r {
            Some(x) => held(old(v)@).contains_key(id@) && x.key() == id@ && x.shown() == held(
                old(v)@,
            )[id@],
            None => !held(old(v)@).contains_key(id@),
        },
{
    match find(v, id) {
        Some(i) => {
            proof {
                lemma_remove(v@, i as int);
            }
            Some(v.remove(i))
        },
        None => {
            assert(held(v@).remove(id@) =~= held(v@));
            None
        },
    }
}

} // verus!
