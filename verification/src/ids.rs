//! Which local number stands for which of a server's own message ids.
//!
//! Servers that name messages by opaque strings get each of them a number here,
//! once, so that the store and everything that reads it is keyed by numbers
//! whatever the server is.

use vstd::prelude::*;

use crate::chars::{opt_str, same};
use crate::order::{text_before, text_order, texts_before};

verus! {

/// Ids and their numbers, as contracts speak of them.
#[verifier::ext_equal]
pub struct Ids {
    pub uids: Map<Seq<char>, u32>,
    /// The number the next new id gets.
    pub next: u32,
}

impl Ids {
    pub open spec fn uid_of(self, id: Seq<char>) -> Option<u32> {
        if self.uids.contains_key(id) {
            Some(self.uids[id])
        } else {
            None
        }
    }

    /// Does `id` have this number, and no id in front of it?
    pub open spec fn names(self, uid: u32, id: Seq<char>) -> bool {
        &&& self.uids.contains_key(id)
        &&& self.uids[id] == uid
        &&& forall|other: Seq<char>|
            self.uids.contains_key(other) && self.uids[other] == uid ==> #[trigger] text_before(
                id,
                other,
            )
    }

    /// The id behind a number: the first in text order, should several have it.
    pub open spec fn id_of(self, uid: u32) -> Option<Seq<char>> {
        if exists|id: Seq<char>| self.names(uid, id) {
            Some(choose|id: Seq<char>| self.names(uid, id))
        } else {
            None
        }
    }

    /// Does this id have a number that no other id has?
    pub open spec fn alone(self, id: Seq<char>) -> bool {
        &&& self.uids.contains_key(id)
        &&& forall|other: Seq<char>| #[trigger]
            self.uids.contains_key(other) && other != id ==> self.uids[other] != self.uids[id]
    }

    /// The number an id has or gets.
    pub open spec fn number_for(self, id: Seq<char>) -> u32 {
        match self.uid_of(id) {
            Some(uid) => uid,
            None => self.next,
        }
    }

    /// With a number for this id. The last number there is is given out again
    /// and again.
    pub open spec fn with(self, id: Seq<char>) -> Ids {
        if self.uids.contains_key(id) {
            self
        } else {
            Ids {
                uids: self.uids.insert(id, self.next),
                next: if self.next < u32::MAX {
                    (self.next + 1) as u32
                } else {
                    u32::MAX
                },
            }
        }
    }

    pub open spec fn without(self, id: Seq<char>) -> Ids {
        Ids { uids: self.uids.remove(id), ..self }
    }

    /// Without the id behind a number, if there is one.
    pub open spec fn without_uid(self, uid: u32) -> Ids {
        match self.id_of(uid) {
            Some(id) => self.without(id),
            None => self,
        }
    }

    /// The highest number given out.
    pub open spec fn highest(self) -> u32 {
        if self.next > 0 {
            (self.next - 1) as u32
        } else {
            0
        }
    }
}

pub proof fn lemma_id_of(ids: Ids, uid: u32, id: Seq<char>)
    requires
        ids.names(uid, id),
    ensures
        ids.id_of(uid) == Some(id),
{
    let other = ids.id_of(uid)->0;
    assert(ids.names(uid, other));
    assert(text_before(id, other) && text_before(other, id));
    text_order(id, other, id);
}

pub open spec fn as_map(s: Seq<(String, u32)>) -> Map<Seq<char>, u32>
    decreases s.len(),
{
    if s.len() == 0 {
        Map::empty()
    } else {
        as_map(s.drop_last()).insert(s.last().0@, s.last().1)
    }
}

pub open spec fn distinct(s: Seq<(String, u32)>) -> bool {
    forall|i: int, j: int|
        0 <= i < j < s.len() ==> (#[trigger] s[i]).0@ != (#[trigger] s[j]).0@
}

proof fn lemma_as_map(s: Seq<(String, u32)>)
    requires
        distinct(s),
    ensures
        forall|i: int|
            0 <= i < s.len() ==> as_map(s).contains_key((#[trigger] s[i]).0@) && as_map(
                s,
            )[s[i].0@] == s[i].1,
        forall|k: Seq<char>| #[trigger]
            as_map(s).contains_key(k) ==> exists|i: int|
                0 <= i < s.len() && (#[trigger] s[i]).0@ == k,
    decreases s.len(),
{
    if s.len() > 0 {
        let t = s.drop_last();
        assert forall|i: int, j: int| 0 <= i < j < t.len() implies (#[trigger] t[i]).0@ != (
        #[trigger] t[j]).0@ by {
            assert(s[i].0@ != s[j].0@);
        }
        lemma_as_map(t);
        assert forall|i: int| 0 <= i < s.len() implies as_map(s).contains_key(
            (#[trigger] s[i]).0@,
        ) && as_map(s)[s[i].0@] == s[i].1 by {
            if i < t.len() {
                assert(t[i] == s[i]);
                assert(s[i].0@ != s[s.len() - 1].0@);
            }
        }
        assert forall|k: Seq<char>| #[trigger] as_map(s).contains_key(k) implies exists|i: int|
            0 <= i < s.len() && (#[trigger] s[i]).0@ == k by {
            if k == s.last().0@ {
                assert(s[s.len() - 1].0@ == k);
            } else {
                assert(as_map(t).contains_key(k));
                let i = choose|i: int| 0 <= i < t.len() && (#[trigger] t[i]).0@ == k;
                assert(s[i].0@ == k);
            }
        }
    }
}

/// Ids and their numbers.
#[derive(Debug)]
pub struct IdMap {
    seen: Vec<(String, u32)>,
    next_uid: u32,
}

impl IdMap {
    pub closed spec fn view(&self) -> Ids {
        Ids { uids: as_map(self.seen@), next: self.next_uid }
    }

    /// No id is held twice.
    pub closed spec fn wf(&self) -> bool {
        distinct(self.seen@)
    }

    /// No ids yet; the first gets this number.
    #[must_use]
    pub fn starting_at(next_uid: u32) -> (r: Self)
        ensures
            r.wf(),
            r@ == (Ids { uids: Map::empty(), next: next_uid }),
    {
        IdMap { seen: Vec::new(), next_uid }
    }

    /// Ids that were kept; of two entries for one id the later counts.
    #[must_use]
    pub fn restored(entries: Vec<(String, u32)>, next_uid: u32) -> (r: Self)
        ensures
            r.wf(),
            r@ == (Ids { uids: as_map(entries@), next: next_uid }),
    {
        let mut out: IdMap = IdMap::starting_at(next_uid);
        let mut i: usize = 0;
        assert(entries@.take(0) =~= Seq::<(String, u32)>::empty());
        while i < entries.len()
            invariant
                i <= entries@.len(),
                out.wf(),
                out@ == (Ids { uids: as_map(entries@.take(i as int)), next: next_uid }),
            decreases entries@.len() - i,
        {
            proof {
                assert(entries@.take(i + 1).drop_last() =~= entries@.take(i as int));
                assert(entries@.take(i + 1).last() == entries@[i as int]);
            }
            out.forget(&entries[i].0);
            let ghost before = out@.uids;
            out.hold(entries[i].0.clone(), entries[i].1);
            assert(out@.uids =~= as_map(entries@.take(i + 1)));
            i = i + 1;
        }
        assert(entries@.take(i as int) =~= entries@);
        out
    }

    /// Every id with its number, to be kept.
    #[must_use]
    pub fn entries(&self) -> (r: &Vec<(String, u32)>)
        ensures
            as_map(r@) == self@.uids,
            self.wf() ==> distinct(r@),
    {
        &self.seen
    }

    #[must_use]
    pub fn next_uid(&self) -> (r: u32)
        ensures
            r == self@.next,
    {
        self.next_uid
    }

    fn position(&self, id: &str) -> (r: Option<usize>)
        requires
            self.wf(),
        ensures
            match r {
                Some(i) => i < self.seen@.len() && self.seen@[i as int].0@ == id@
                    && self@.uid_of(id@) == Some(self.seen@[i as int].1),
                None => self@.uid_of(id@) is None,
            },
    {
        proof {
            lemma_as_map(self.seen@);
        }
        let mut i: usize = 0;
        while i < self.seen.len()
            invariant
                i <= self.seen@.len(),
                self.wf(),
                forall|j: int| 0 <= j < i ==> (#[trigger] self.seen@[j]).0@ != id@,
            decreases self.seen@.len() - i,
        {
            if same(&self.seen[i].0, id) {
                proof {
                    lemma_as_map(self.seen@);
                    assert(self.seen@[i as int].0@ == id@);
                }
                return Some(i);
            }
            i = i + 1;
        }
        None
    }

    /// The local number for a server id, if it has one.
    #[must_use]
    pub fn uid_of(&self, id: &str) -> (r: Option<u32>)
        requires
            self.wf(),
        ensures
            r == self@.uid_of(id@),
    {
        match self.position(id) {
            Some(i) => Some(self.seen[i].1),
            None => None,
        }
    }

    /// The server id behind a local number.
    #[must_use]
    pub fn id_of(&self, uid: u32) -> (r: Option<&str>)
        requires
            self.wf(),
        ensures
            opt_str(r) == self@.id_of(uid),
    {
        let mut best: Option<usize> = None;
        let mut i: usize = 0;
        while i < self.seen.len()
            invariant
                i <= self.seen@.len(),
                match best {
                    Some(b) => b < i && self.seen@[b as int].1 == uid && forall|j: int|
                        0 <= j < i && (#[trigger] self.seen@[j]).1 == uid ==> text_before(
                            self.seen@[b as int].0@,
                            self.seen@[j].0@,
                        ),
                    None => forall|j: int| 0 <= j < i ==> (#[trigger] self.seen@[j]).1 != uid,
                },
            decreases self.seen@.len() - i,
        {
            if self.seen[i].1 == uid {
                match best {
                    None => {
                        best = Some(i);
                        proof {
                            text_order(
                                self.seen@[i as int].0@,
                                self.seen@[i as int].0@,
                                self.seen@[i as int].0@,
                            );
                        }
                    },
                    Some(b) => {
                        let ghost old_best = self.seen@[b as int].0@;
                        let ghost here = self.seen@[i as int].0@;
                        if !texts_before(&self.seen[b].0, &self.seen[i].0) {
                            best = Some(i);
                            proof {
                                text_order(here, old_best, here);
                                assert forall|j: int|
                                    0 <= j < i + 1 && (#[trigger] self.seen@[j]).1
                                        == uid implies text_before(here, self.seen@[j].0@) by {
                                    text_order(here, old_best, self.seen@[j].0@);
                                }
                            }
                        }
                    },
                }
            }
            i = i + 1;
        }
        proof {
            lemma_as_map(self.seen@);
        }
        match best {
            Some(b) => {
                proof {
                    let id = self.seen@[b as int].0@;
                    assert forall|other: Seq<char>|
                        self@.uids.contains_key(other) && self@.uids[other]
                            == uid implies #[trigger] text_before(id, other) by {
                        let j = choose|j: int|
                            0 <= j < self.seen@.len() && (#[trigger] self.seen@[j]).0@ == other;
                        assert(self.seen@[j].1 == uid);
                    }
                    lemma_id_of(self@, uid, id);
                }
                Some(self.seen[b].0.as_str())
            },
            None => {
                proof {
                    assert forall|id: Seq<char>| !self@.names(uid, id) by {
                        if self@.names(uid, id) {
                            let j = choose|j: int|
                                0 <= j < self.seen@.len() && (#[trigger] self.seen@[j]).0@ == id;
                            assert(self.seen@[j].1 == uid);
                        }
                    }
                }
                None
            },
        }
    }

    fn hold(&mut self, id: String, uid: u32)
        requires
            old(self).wf(),
            !old(self)@.uids.contains_key(id@),
        ensures
            final(self).wf(),
            final(self)@ == (Ids { uids: old(self)@.uids.insert(id@, uid), ..old(self)@ }),
    {
        proof {
            lemma_as_map(self.seen@);
        }
        let ghost before = self.seen@;
        self.seen.push((id, uid));
        proof {
            assert(self.seen@.drop_last() =~= before);
            assert forall|i: int, j: int| 0 <= i < j < self.seen@.len() implies (
            #[trigger] self.seen@[i]).0@ != (#[trigger] self.seen@[j]).0@ by {
                if j == before.len() {
                    assert(before[i] == self.seen@[i]);
                }
            }
        }
    }

    /// The local number for a server id, given out now if it is new.
    pub fn uid_for(&mut self, id: &str) -> (r: u32)
        requires
            old(self).wf(),
        ensures
            final(self).wf(),
            r == old(self)@.number_for(id@),
            final(self)@ == old(self)@.with(id@),
    {
        if let Some(uid) = self.uid_of(id) {
            return uid;
        }
        let uid: u32 = self.next_uid;
        self.hold(id.to_owned(), uid);
        self.next_uid = if uid < u32::MAX {
            uid + 1
        } else {
            u32::MAX
        };
        uid
    }

    /// Drops an id; its number is not given out again.
    pub fn forget(&mut self, id: &str)
        requires
            old(self).wf(),
        ensures
            final(self).wf(),
            final(self)@ == old(self)@.without(id@),
    {
        match self.position(id) {
            Some(i) => {
                let ghost before = self.seen@;
                self.seen.remove(i);
                proof {
                    let after = self.seen@;
                    assert(after =~= before.remove(i as int));
                    assert forall|a: int, b: int| 0 <= a < b < after.len() implies (
                    #[trigger] after[a]).0@ != (#[trigger] after[b]).0@ by {
                        let ka: int = if a < i {
                            a
                        } else {
                            a + 1
                        };
                        let kb: int = if b < i {
                            b
                        } else {
                            b + 1
                        };
                        assert(before[ka] == after[a] && before[kb] == after[b]);
                        assert(before[ka].0@ != before[kb].0@);
                    }
                    lemma_as_map(before);
                    lemma_as_map(after);
                    assert forall|k: Seq<char>|
                        as_map(after).contains_key(k) <==> as_map(before).remove(
                            id@,
                        ).contains_key(k) by {
                        if as_map(after).contains_key(k) {
                            let a = choose|a: int|
                                0 <= a < after.len() && (#[trigger] after[a]).0@ == k;
                            let ka: int = if a < i {
                                a
                            } else {
                                a + 1
                            };
                            assert(before[ka] == after[a]);
                            if ka < i {
                                assert(before[ka].0@ != before[i as int].0@);
                            } else {
                                assert(before[i as int].0@ != before[ka].0@);
                            }
                        }
                        if as_map(before).remove(id@).contains_key(k) {
                            assert(as_map(before).contains_key(k));
                            let kb = choose|kb: int|
                                0 <= kb < before.len() && (#[trigger] before[kb]).0@ == k;
                            let b: int = if kb < i {
                                kb
                            } else {
                                kb - 1
                            };
                            assert(kb != i);
                            assert(after[b] == before[kb]);
                        }
                    }
                    assert forall|k: Seq<char>| as_map(after).contains_key(k) implies as_map(
                        after,
                    )[k] == as_map(before)[k] by {
                        let a = choose|a: int|
                            0 <= a < after.len() && (#[trigger] after[a]).0@ == k;
                        let ka: int = if a < i {
                            a
                        } else {
                            a + 1
                        };
                        assert(before[ka] == after[a]);
                    }
                    assert(as_map(after) =~= as_map(before).remove(id@));
                }
            },
            None => {
                assert(self@.uids.remove(id@) =~= self@.uids);
            },
        }
    }

    /// The highest number given out.
    #[must_use]
    pub fn highest(&self) -> (r: u32)
        ensures
            r == self@.highest(),
    {
        if self.next_uid > 0 {
            self.next_uid - 1
        } else {
            0
        }
    }
}

/// An id keeps the number it was given: asking again changes nothing.
pub proof fn an_id_keeps_its_number(ids: Ids, id: Seq<char>)
    ensures
        ids.with(id).uid_of(id) == Some(ids.number_for(id)),
        ids.with(id).with(id) == ids.with(id),
{
}

/// Numbers are not given out twice: as long as every number held is below the
/// next one, a new id gets one that no other has, and the same holds afterwards.
pub proof fn a_new_id_gets_a_new_number(ids: Ids, id: Seq<char>)
    requires
        forall|k: Seq<char>| ids.uids.contains_key(k) ==> #[trigger] ids.uids[k] < ids.next,
        !ids.uids.contains_key(id),
        ids.next < u32::MAX,
    ensures
        forall|k: Seq<char>|
            ids.uids.contains_key(k) ==> #[trigger] ids.uids[k] != ids.number_for(id),
        forall|k: Seq<char>|
            ids.with(id).uids.contains_key(k) ==> #[trigger] ids.with(id).uids[k] < ids.with(
                id,
            ).next,
{
}

/// What an engine over an API has to remember between passes: the numbers of
/// ids, and the cursor its change feed is read from.
#[derive(Debug)]
pub struct RemoteIds {
    ids: IdMap,
    cursor: Option<String>,
}

impl RemoteIds {
    pub closed spec fn wf(&self) -> bool {
        self.ids.wf()
    }

    pub closed spec fn ids(&self) -> Ids {
        self.ids@
    }

    pub closed spec fn at(&self) -> Option<Seq<char>> {
        crate::chars::opt_text(self.cursor)
    }

    /// A state that was kept.
    #[must_use]
    pub fn restored(seen: Vec<(String, u32)>, next_uid: u32, cursor: Option<String>) -> (r: Self)
        ensures
            r.wf(),
            r.ids() == (Ids { uids: as_map(seen@), next: next_uid }),
            r.at() == crate::chars::opt_text(cursor),
    {
        RemoteIds { ids: IdMap::restored(seen, next_uid), cursor }
    }

    /// Every id with its number, to be kept.
    #[must_use]
    pub fn entries(&self) -> (r: &Vec<(String, u32)>)
        ensures
            as_map(r@) == self.ids().uids,
    {
        self.ids.entries()
    }

    #[must_use]
    pub fn next_uid(&self) -> (r: u32)
        ensures
            r == self.ids().next,
    {
        self.ids.next_uid()
    }

    #[must_use]
    pub fn cursor(&self) -> (r: Option<&str>)
        ensures
            opt_str(r) == self.at(),
    {
        match &self.cursor {
            Some(s) => Some(s.as_str()),
            None => None,
        }
    }

    pub fn set_cursor(&mut self, cursor: String)
        ensures
            final(self).wf() == old(self).wf(),
            final(self).ids() == old(self).ids(),
            final(self).at() == Some(cursor@),
    {
        self.cursor = Some(cursor);
    }

    /// Drops the cursor: what changed since cannot be told, and the next pass
    /// reads everything again.
    pub fn reset_cursor(&mut self)
        ensures
            final(self).wf() == old(self).wf(),
            final(self).ids() == old(self).ids(),
            final(self).at() is None,
    {
        self.cursor = None;
    }

    #[must_use]
    pub fn uid_of(&self, id: &str) -> (r: Option<u32>)
        requires
            self.wf(),
        ensures
            r == self.ids().uid_of(id@),
    {
        self.ids.uid_of(id)
    }

    #[must_use]
    pub fn id_of(&self, uid: u32) -> (r: Option<&str>)
        requires
            self.wf(),
        ensures
            opt_str(r) == self.ids().id_of(uid),
    {
        self.ids.id_of(uid)
    }

    pub fn uid_for(&mut self, id: &str) -> (r: u32)
        requires
            old(self).wf(),
        ensures
            final(self).wf(),
            r == old(self).ids().number_for(id@),
            final(self).ids() == old(self).ids().with(id@),
            final(self).at() == old(self).at(),
    {
        self.ids.uid_for(id)
    }

    pub fn forget(&mut self, id: &str)
        requires
            old(self).wf(),
        ensures
            final(self).wf(),
            final(self).ids() == old(self).ids().without(id@),
            final(self).at() == old(self).at(),
    {
        self.ids.forget(id)
    }

    /// The numbers, and the cursor.
    pub(crate) fn into_parts(self) -> (r: (IdMap, Option<String>))
        requires
            self.wf(),
        ensures
            r.0.wf(),
            r.0@ == self.ids(),
            crate::chars::opt_text(r.1) == self.at(),
    {
        (self.ids, self.cursor)
    }

    pub(crate) fn from_parts(ids: IdMap, cursor: Option<String>) -> (r: Self)
        requires
            ids.wf(),
        ensures
            r.wf(),
            r.ids() == ids@,
            r.at() == crate::chars::opt_text(cursor),
    {
        RemoteIds { ids, cursor }
    }

    /// The highest number given out.
    #[must_use]
    pub fn highest_uid(&self) -> (r: u32)
        ensures
            r == self.ids().highest(),
    {
        self.ids.highest()
    }

    /// The server id a queued change is about. A number with no id means that
    /// what is remembered and what is held have diverged, which only a full read
    /// resolves.
    pub fn id_for(&self, service: &str, uid: u32) -> (r: crate::error::Result<String>)
        requires
            self.wf(),
        ensures
            match r {
                Ok(id) => self.ids().id_of(uid) == Some(id@),
                Err(crate::error::Error::UidValidityChanged { mailbox, had, now }) => self.ids()
                    .id_of(uid) is None && mailbox@ == service@ && had == uid && now == 0,
                Err(_) => false,
            },
    {
        match self.ids.id_of(uid) {
            Some(id) => Ok(id.to_owned()),
            None => Err(
                crate::error::Error::UidValidityChanged {
                    mailbox: service.to_owned(),
                    had: uid,
                    now: 0,
                },
            ),
        }
    }
}

impl Default for RemoteIds {
    fn default() -> (r: Self)
        ensures
            r.wf(),
            r.ids() == (Ids { uids: Map::empty(), next: 1 }),
            r.at() is None,
    {
        RemoteIds { ids: IdMap::starting_at(1), cursor: None }
    }
}

/// The highest number given out is the one before the next.
pub proof fn the_highest_number_is_the_last_given_out(ids: Ids, id: Seq<char>)
    requires
        !ids.uids.contains_key(id),
        ids.next < u32::MAX,
    ensures
        ids.with(id).highest() == ids.number_for(id),
        ids.next == 0 ==> ids.highest() == 0,
{
}

/// Forgetting a number forgets an id that has it, and no id with another number.
pub proof fn what_forgetting_a_number_leaves(ids: Ids, uid: u32, id: Seq<char>, other: Seq<char>)
    requires
        ids.uids.contains_key(id),
        ids.uids[id] == uid,
        forall|x: Seq<char>| #[trigger] ids.uids.contains_key(x) && x != id ==> ids.uids[x] != uid,
        ids.names(uid, id),
        other != id,
    ensures
        !ids.without_uid(uid).uids.contains_key(id),
        ids.without_uid(uid).uids.contains_key(other) <==> ids.uids.contains_key(other),
        ids.uids.contains_key(other) ==> ids.without_uid(uid).uids[other] == ids.uids[other],
        ids.without_uid(uid).next == ids.next,
{
    lemma_id_of(ids, uid, id);
}

} // verus!
