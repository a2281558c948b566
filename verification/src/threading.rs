//! What threading reads of a subject, and of the headers that name a message's
//! ancestors.

use vstd::prelude::*;

use crate::chars::{back_run, begins, begins_with, copy_of, drop_back, drop_front, find, find_of,
    from_index, lemma_back_run, lemma_back_run_is, lemma_run, lemma_run_is, lemma_trimmed_part,
    lemma_trimmed_twice, lower_of, lowered, pieces, run, same_chars, texts, to_chars, to_text,
    trim_of, trimmed, up_to, Class};

verus! {

/// How many characters of a reply, forward or list marker stand at the front of
/// a subject that has no white space around it.
pub open spec fn marker(s: Seq<char>) -> nat {
    let l = lowered(s);
    if begins(l, "re:"@) || begins(l, "fw:"@) {
        3
    } else if begins(l, "fwd:"@) {
        4
    } else if s.len() > 0 && s[0] == '[' && find(s, Class::Is(']')) < s.len() {
        (find(s, Class::Is(']')) + 1) as nat
    } else {
        0
    }
}

/// A subject without the markers in front of it.
pub open spec fn normalized(s: Seq<char>) -> Seq<char>
    decreases s.len(),
{
    let t = trimmed(s);
    let n = marker(t);
    if 0 < n <= t.len() && t.len() <= s.len() {
        normalized(t.skip(n as int))
    } else {
        t
    }
}

fn begins_folded(lower: &Vec<char>, prefix: &str) -> (r: bool)
    ensures
        r == begins(lower@, prefix@),
{
    begins_with(lower, &to_chars(prefix))
}

fn marker_of(s: &[char]) -> (r: usize)
    ensures
        r == marker(s@),
{
    let l: Vec<char> = lower_of(s);
    if begins_folded(&l, "re:") || begins_folded(&l, "fw:") {
        return 3;
    }
    if begins_folded(&l, "fwd:") {
        return 4;
    }
    if s.len() > 0 && s[0] == '[' {
        if let Some(i) = find_of(s, Class::Is(']')) {
            return i + 1;
        }
    }
    0
}

/// The subject with `Re:`, `Fwd:` and `[list]` prefixes stripped: the key that
/// threading falls back to when a reply names no ancestors.
#[must_use]
pub fn normalize_subject(subject: &str) -> (r: String)
    ensures
        r@ == normalized(subject@),
{
    let mut rest: Vec<char> = to_chars(subject);
    loop
        invariant
            normalized(rest@) == normalized(subject@),
        decreases rest@.len(),
    {
        let t: &[char] = trim_of(&rest);
        proof {
            lemma_trimmed_part(rest@);
        }
        let n: usize = marker_of(t);
        if n == 0 || n > t.len() {
            return to_text(t);
        }
        let next: Vec<char> = copy_of(from_index(t, n));
        rest = next;
    }
}

/// Stripping a subject again changes nothing.
pub proof fn normalizing_is_idempotent(s: Seq<char>)
    ensures
        normalized(normalized(s)) == normalized(s),
    decreases s.len(),
{
    let t = trimmed(s);
    let n = marker(t);
    lemma_trimmed_part(s);
    lemma_trimmed_twice(s);
    if 0 < n <= t.len() {
        normalizing_is_idempotent(t.skip(n as int));
    }
}

/// The ids a header lists, each between angle brackets; an empty pair names
/// nothing.
pub open spec fn ids_in(s: Seq<char>) -> Seq<Seq<char>>
    decreases s.len(),
{
    let i = find(s, Class::Is('<'));
    if i >= s.len() {
        Seq::empty()
    } else {
        let rest = s.skip(i + 1);
        let j = find(rest, Class::Is('>'));
        if j >= rest.len() {
            Seq::empty()
        } else {
            let id = trimmed(rest.take(j));
            (if id.len() > 0 {
                seq![id]
            } else {
                Seq::empty()
            }) + ids_in(rest.skip(j + 1))
        }
    }
}

/// The ids of a list, each where it first occurs.
pub open spec fn each_once(ids: Seq<Seq<char>>) -> Seq<Seq<char>>
    decreases ids.len(),
{
    if ids.len() == 0 {
        Seq::empty()
    } else {
        let front = each_once(ids.drop_last());
        if front.contains(ids.last()) {
            front
        } else {
            front.push(ids.last())
        }
    }
}

/// A message's ancestors, oldest first.
pub open spec fn ancestors(references: Seq<char>, in_reply_to: Seq<char>) -> Seq<Seq<char>> {
    each_once(ids_in(references) + ids_in(in_reply_to))
}

fn collect_ids(text: &str) -> (r: Vec<Vec<char>>)
    ensures
        pieces(r@) == ids_in(text@),
{
    let v: Vec<char> = to_chars(text);
    let mut out: Vec<Vec<char>> = Vec::new();
    let mut at: usize = 0;
    proof {
        assert(v@.skip(0) =~= v@);
        assert(pieces(out@) + ids_in(v@) =~= ids_in(v@));
    }
    loop
        invariant
            at <= v@.len(),
            pieces(out@) + ids_in(v@.skip(at as int)) == ids_in(v@),
            v@ == text@,
        decreases v@.len() - at,
    {
        let s: &[char] = from_index(&v, at);
        assert(pieces(out@) + Seq::<Seq<char>>::empty() =~= pieces(out@));
        let i: usize = match find_of(s, Class::Is('<')) {
            Some(i) => i,
            None => {
                return out;
            },
        };
        let rest: &[char] = from_index(s, i + 1);
        let j: usize = match find_of(rest, Class::Is('>')) {
            Some(j) => j,
            None => {
                return out;
            },
        };
        let id: &[char] = trim_of(up_to(rest, j));
        let ghost before = pieces(out@);
        let ghost tail = ids_in(rest@.skip(j + 1));
        if id.len() > 0 {
            out.push(copy_of(id));
            assert(pieces(out@) =~= before.push(id@));
            assert(before.push(id@) + tail =~= before + (seq![id@] + tail));
        } else {
            assert(Seq::<Seq<char>>::empty() + tail =~= tail);
        }
        assert(rest@.skip(j + 1) =~= v@.skip(at + i + 1 + j + 1));
        assert(at + i + 1 + j + 1 <= v.len());
        at = at + (i + 1) + (j + 1);
    }
}

fn is_in(ids: &Vec<Vec<char>>, id: &[char]) -> (r: bool)
    ensures
        r == pieces(ids@).contains(id@),
{
    let mut i: usize = 0;
    while i < ids.len()
        invariant
            i <= ids@.len(),
            forall|k: int| 0 <= k < i ==> #[trigger] pieces(ids@)[k] != id@,
        decreases ids@.len() - i,
    {
        if same_chars(&ids[i], id) {
            assert(pieces(ids@)[i as int] == id@);
            return true;
        }
        i = i + 1;
    }
    false
}

fn add_once(out: &mut Vec<Vec<char>>, ids: &Vec<Vec<char>>, Ghost(done): Ghost<Seq<Seq<char>>>)
    requires
        pieces(old(out)@) == each_once(done),
    ensures
        pieces(final(out)@) == each_once(done + pieces(ids@)),
{
    let ghost all = pieces(ids@);
    let mut i: usize = 0;
    assert(done + all.take(0) =~= done);
    while i < ids.len()
        invariant
            i <= ids@.len(),
            all == pieces(ids@),
            pieces(out@) == each_once(done + all.take(i as int)),
        decreases ids@.len() - i,
    {
        let ghost before = pieces(out@);
        proof {
            let now = done + all.take(i + 1);
            assert(now.drop_last() =~= done + all.take(i as int));
            assert(now.last() == ids@[i as int]@);
        }
        if !is_in(out, &ids[i]) {
            out.push(copy_of(&ids[i]));
            assert(pieces(out@) =~= before.push(ids@[i as int]@));
        }
        i = i + 1;
    }
    assert(all.take(i as int) =~= all);
}

/// The ids a reply descends from, oldest first and each once: what
/// `References` lists, then what `In-Reply-To` names.
#[must_use]
pub fn reference_chain(references: &str, in_reply_to: &str) -> (r: Vec<String>)
    ensures
        texts(r@) == ancestors(references@, in_reply_to@),
{
    let a: Vec<Vec<char>> = collect_ids(references);
    let b: Vec<Vec<char>> = collect_ids(in_reply_to);
    let mut out: Vec<Vec<char>> = Vec::new();
    let ghost none = Seq::<Seq<char>>::empty();
    assert(pieces(out@) =~= each_once(none));
    add_once(&mut out, &a, Ghost(none));
    assert(none + pieces(a@) =~= pieces(a@));
    add_once(&mut out, &b, Ghost(pieces(a@)));
    to_texts(&out)
}

pub(crate) fn to_texts(v: &Vec<Vec<char>>) -> (r: Vec<String>)
    ensures
        texts(r@) == pieces(v@),
{
    let mut out: Vec<String> = Vec::new();
    let mut i: usize = 0;
    while i < v.len()
        invariant
            i <= v@.len(),
            out@.len() == i,
            forall|k: int| 0 <= k < i ==> (#[trigger] out@[k])@ == v@[k]@,
        decreases v@.len() - i,
    {
        out.push(to_text(&v[i]));
        i = i + 1;
    }
    assert(texts(out@) =~= pieces(v@));
    out
}

proof fn lemma_trim_back(s: Seq<char>)
    ensures
        trimmed(drop_back(s, Class::White)) == trimmed(s),
{
    let w = Class::White;
    lemma_back_run(s, w);
    lemma_run(s, w, true);
    let b = back_run(s, w) as int;
    let f = run(s, w, true) as int;
    let cut = drop_back(s, w);
    let tail = drop_front(s, w);
    if f == s.len() {
        if b < s.len() {
            assert(w.holds(s[s.len() - b - 1]));
        }
        assert(cut =~= Seq::<char>::empty());
        lemma_back_run(tail, w);
        assert(tail.len() == 0);
        lemma_run(cut, w, true);
        lemma_back_run(drop_front(cut, w), w);
        assert(trimmed(cut) =~= Seq::<char>::empty());
        assert(trimmed(s) =~= Seq::<char>::empty());
    } else {
        assert(f < s.len() - b) by {
            if f >= s.len() - b {
                assert(w.holds(s[f]));
            }
        }
        lemma_run_is(cut, w, true, f);
        let inner = drop_front(cut, w);
        assert(inner =~= s.subrange(f, s.len() - b));
        assert(inner.last() == s[s.len() - b - 1]);
        lemma_back_run_is(inner, w, 0);
        assert(inner.take(inner.len() as int) =~= inner);
        assert forall|j: int| tail.len() - b <= j < tail.len() implies w.holds(
            #[trigger] tail[j],
        ) by {
            assert(tail[j] == s[j + f]);
        }
        assert(tail[tail.len() - b - 1] == s[s.len() - b - 1]);
        lemma_back_run_is(tail, w, b);
        assert(trimmed(s) =~= s.subrange(f, s.len() - b));
    }
}

proof fn lemma_normalized_trims(a: Seq<char>, b: Seq<char>)
    requires
        trimmed(a) == trimmed(b),
    ensures
        normalized(a) == normalized(b),
{
    lemma_trimmed_part(a);
    lemma_trimmed_part(b);
}

/// A reply or forward marker in front of a subject, in any case, says nothing, and neither
/// does the name of a list in square brackets: the subject behind it counts.
pub proof fn a_marker_in_front_says_nothing(mark: Seq<char>, rest: Seq<char>)
    requires
        lowered(mark) == "re:"@ || lowered(mark) == "fw:"@ || lowered(mark) == "fwd:"@ || (
        mark.len() >= 2 && mark[0] == '[' && mark.last() == ']' && forall|i: int|
            0 <= i < mark.len() - 1 ==> #[trigger] mark[i] != ']'),
    ensures
        normalized(mark + rest) == normalized(rest),
{
    reveal_strlit("re:");
    reveal_strlit("fw:");
    reveal_strlit("fwd:");
    let w = Class::White;
    let s = mark + rest;
    let n = mark.len() as int;
    assert(lowered(mark).len() == mark.len());
    assert forall|i: int| 0 <= i < n implies #[trigger] lowered(mark)[i] == crate::chars::lower(
        mark[i],
    ) by {}
    assert(n >= 2);
    let first = lowered(mark)[0];
    let last = lowered(mark)[n - 1];
    assert(!w.holds(mark[0])) by {
        assert(first == 'r' || first == 'f' || mark[0] == '[');
    }
    assert(!w.holds(mark[n - 1])) by {
        assert(last == ':' || mark[n - 1] == ']');
    }
    lemma_run_is(s, w, true, 0);
    assert(s.skip(0) =~= s);
    lemma_back_run(rest, w);
    let b = back_run(rest, w) as int;
    assert forall|j: int| s.len() - b <= j < s.len() implies w.holds(#[trigger] s[j]) by {
        assert(s[j] == rest[j - n]);
    }
    if b < rest.len() {
        assert(s[s.len() - b - 1] == rest[rest.len() - b - 1]);
    } else {
        assert(s[s.len() - b - 1] == mark[n - 1]);
    }
    lemma_back_run_is(s, w, b);
    let t = trimmed(s);
    assert(t =~= mark + drop_back(rest, w));
    let l = lowered(t);
    assert(l.take(n) =~= lowered(mark));
    assert(l[0] == first && l[1] == lowered(mark)[1]);
    if lowered(mark) == "re:"@ || lowered(mark) == "fw:"@ {
        assert(l.take(3) =~= lowered(mark));
    } else if lowered(mark) == "fwd:"@ {
        assert(l.take(4) =~= lowered(mark));
        assert(l.take(3)[2] == 'd');
        assert(l.take(3)[0] == 'f');
    } else {
        assert(l[0] == '[');
        assert(l.take(3)[0] == '[' || l.len() < 3);
        assert(l.take(4)[0] == '[' || l.len() < 4);
        assert forall|j: int| 0 <= j < n - 1 implies Class::Is(']').holds(#[trigger] t[j])
            == false by {
            assert(t[j] == mark[j]);
        }
        assert(t[n - 1] == ']');
        lemma_run_is(t, Class::Is(']'), false, n - 1);
    }
    assert(marker(t) == n);
    assert(t.skip(n) =~= drop_back(rest, w));
    lemma_trimmed_part(s);
    lemma_trim_back(rest);
    lemma_normalized_trims(drop_back(rest, w), rest);
}

/// A subject without such a marker keeps its words: only white space around it goes.
pub proof fn a_plain_subject_stays(s: Seq<char>)
    requires
        trimmed(s).len() > 0,
        trimmed(s)[0] != 'r' && trimmed(s)[0] != 'R' && trimmed(s)[0] != 'f' && trimmed(s)[0]
            != 'F' && trimmed(s)[0] != '[',
    ensures
        normalized(s) == trimmed(s),
{
    reveal_strlit("re:");
    reveal_strlit("fw:");
    reveal_strlit("fwd:");
    let t = trimmed(s);
    let l = lowered(t);
    assert(l[0] == crate::chars::lower(t[0]));
    assert(l[0] != 'r' && l[0] != 'f');
    if l.len() >= 3 {
        assert(l.take(3)[0] == l[0]);
    }
    if l.len() >= 4 {
        assert(l.take(4)[0] == l[0]);
    }
}

/// Every id between angle brackets is read, in order, whatever stands between them.
pub proof fn every_bracketed_id_is_read(before: Seq<char>, id: Seq<char>, rest: Seq<char>)
    requires
        forall|i: int| 0 <= i < before.len() ==> #[trigger] before[i] != '<',
        forall|i: int| 0 <= i < id.len() ==> #[trigger] id[i] != '>',
        trimmed(id).len() > 0,
    ensures
        ids_in(before + seq!['<'] + id + seq!['>'] + rest) == seq![trimmed(id)] + ids_in(rest),
{
    let s = before + seq!['<'] + id + seq!['>'] + rest;
    let i = before.len() as int;
    assert forall|j: int| 0 <= j < i implies Class::Is('<').holds(#[trigger] s[j]) == false by {
        assert(s[j] == before[j]);
    }
    assert(s[i] == '<');
    lemma_run_is(s, Class::Is('<'), false, i);
    let r = s.skip(i + 1);
    assert(r =~= id + seq!['>'] + rest);
    let n = id.len() as int;
    assert forall|j: int| 0 <= j < n implies Class::Is('>').holds(#[trigger] r[j]) == false by {
        assert(r[j] == id[j]);
    }
    assert(r[n] == '>');
    lemma_run_is(r, Class::Is('>'), false, n);
    assert(r.take(n) =~= id);
    assert(r.skip(n + 1) =~= rest);
}

/// A list of ids without repeats holds the same ids, each once.
pub proof fn each_id_is_kept_once(ids: Seq<Seq<char>>)
    ensures
        forall|id: Seq<char>| #[trigger] each_once(ids).contains(id) <==> ids.contains(id),
        forall|i: int, j: int|
            0 <= i < j < each_once(ids).len() ==> #[trigger] each_once(ids)[i]
                != #[trigger] each_once(ids)[j],
    decreases ids.len(),
{
    if ids.len() > 0 {
        let rest = ids.drop_last();
        each_id_is_kept_once(rest);
        let front = each_once(rest);
        let all = each_once(ids);
        assert forall|id: Seq<char>| #[trigger] all.contains(id) <==> ids.contains(id) by {
            assert(front.contains(id) <==> rest.contains(id));
            if all.contains(id) {
                let k = choose|k: int| 0 <= k < all.len() && all[k] == id;
                if k < front.len() {
                    assert(front[k] == id);
                    let m = choose|m: int| 0 <= m < rest.len() && rest[m] == id;
                    assert(ids[m] == id);
                } else {
                    assert(ids[ids.len() - 1] == id);
                }
            }
            if ids.contains(id) {
                let m = choose|m: int| 0 <= m < ids.len() && ids[m] == id;
                if m < rest.len() {
                    assert(rest[m] == id);
                    let k = choose|k: int| 0 <= k < front.len() && front[k] == id;
                    assert(all[k] == id);
                } else if front.contains(id) {
                    assert(all == front);
                } else {
                    assert(all[all.len() - 1] == id);
                }
            }
        }
        assert forall|i: int, j: int| 0 <= i < j < all.len() implies #[trigger] all[i]
            != #[trigger] all[j] by {
            if j == front.len() {
                assert(front.contains(front[i]));
            }
        }
    }
}

/// What comes later in a list of ids changes nothing of what is kept of the earlier ones, and
/// an id that was not there before comes last.
pub proof fn ids_stay_in_order(ids: Seq<Seq<char>>, more: Seq<Seq<char>>)
    ensures
        each_once(ids).is_prefix_of(each_once(ids + more)),
    decreases more.len(),
{
    if more.len() == 0 {
        assert(ids + more =~= ids);
    } else {
        ids_stay_in_order(ids, more.drop_last());
        assert((ids + more).drop_last() =~= ids + more.drop_last());
        let a = each_once(ids);
        let b = each_once(ids + more.drop_last());
        let c = each_once(ids + more);
        assert(a =~= c.take(a.len() as int));
    }
}

/// A message descends from every id that either of its two headers names, oldest first.
pub proof fn who_a_message_descends_from(references: Seq<char>, in_reply_to: Seq<char>, id: Seq<char>)
    ensures
        ancestors(references, in_reply_to).contains(id) <==> ids_in(references).contains(id)
            || ids_in(in_reply_to).contains(id),
        each_once(ids_in(references)).is_prefix_of(ancestors(references, in_reply_to)),
{
    let a = ids_in(references);
    let b = ids_in(in_reply_to);
    each_id_is_kept_once(a + b);
    ids_stay_in_order(a, b);
    assert(ancestors(references, in_reply_to).contains(id) <==> (a + b).contains(id));
    if a.contains(id) {
        let k = choose|k: int| 0 <= k < a.len() && a[k] == id;
        assert((a + b)[k] == id);
    }
    if b.contains(id) {
        let k = choose|k: int| 0 <= k < b.len() && b[k] == id;
        assert((a + b)[a.len() + k] == id);
    }
    if (a + b).contains(id) {
        let k = choose|k: int| 0 <= k < (a + b).len() && (a + b)[k] == id;
        if k < a.len() {
            assert(a[k] == id);
        } else {
            assert(b[k - a.len()] == id);
        }
    }
}

} // verus!
