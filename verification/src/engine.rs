//! What the engines that read a mailbox over an API do with one message: fetch
//! it, take over its flags, or drop it, and keep the books.

use std::collections::BTreeMap;

use vstd::prelude::*;

use crate::chars::{same, texts};
use crate::error::Result;
use crate::ids::{lemma_id_of, IdMap, Ids};
use crate::imap::{count_more, more};
use crate::model::Flags;
use crate::order::{a_set_of_numbers_is_listed, lemma_listing_of, listing_of, strictly_ascending, text_before, text_order};
use crate::plan::held_uids;
use crate::store::{nothing_held_is_lost, Contents, Cursor, MailStore, RemoteMessage};

verus! {

/// What one pass did.
#[derive(Debug, Clone, Copy, PartialEq, Eq, Structural)]
pub struct Counts {
    pub fetched: usize,
    pub reflagged: usize,
    pub removed: usize,
}

pub open spec fn no_counts() -> Counts {
    Counts { fetched: 0, reflagged: 0, removed: 0 }
}

impl Default for Counts {
    fn default() -> (r: Self)
        ensures
            r == no_counts(),
    {
        Counts { fetched: 0, reflagged: 0, removed: 0 }
    }
}

/// Everything a pass changes: the numbers of ids, the counts, the store.
#[verifier::ext_equal]
pub struct Books {
    pub ids: Ids,
    pub counts: Counts,
    pub contents: Contents,
}

pub open spec fn held_flags(known: Map<u32, Flags>, uid: u32) -> Option<Flags> {
    if known.contains_key(uid) {
        Some(known[uid])
    } else {
        None
    }
}

impl Books {
    /// A message stored under a number.
    pub open spec fn delivered(
        self,
        uid: u32,
        flags: Flags,
        raw: Seq<u8>,
        arrived_ms: i64,
    ) -> Books {
        Books {
            counts: Counts { fetched: more(self.counts.fetched, 1), ..self.counts },
            contents: self.contents.with_message(uid, flags, raw, arrived_ms),
            ..self
        }
    }

    /// Flags taken over, where they are not the ones known.
    pub open spec fn reflagged(self, uid: u32, flags: Flags, known: Map<u32, Flags>) -> Books {
        if held_flags(known, uid) == Some(flags) {
            self
        } else {
            Books {
                counts: Counts { reflagged: more(self.counts.reflagged, 1), ..self.counts },
                contents: self.contents.with_flags(uid, flags),
                ..self
            }
        }
    }

    /// An id dropped, with its message, if it has a number.
    pub open spec fn dropped(self, id: Seq<char>) -> Books {
        match self.ids.uid_of(id) {
            Some(uid) => Books {
                ids: self.ids.without(id),
                counts: Counts { removed: more(self.counts.removed, 1), ..self.counts },
                contents: self.contents.without(uid),
            },
            None => self,
        }
    }

    pub open spec fn all_dropped(self, ids: Seq<Seq<char>>) -> Books
        decreases ids.len(),
    {
        if ids.len() == 0 {
            self
        } else {
            self.all_dropped(ids.drop_last()).dropped(ids.last())
        }
    }

    /// What a message that is not new comes to: still here, its flags are taken
    /// over; no longer here, it is dropped. The bytes of a message never
    /// change, so one that is held is not downloaded again.
    pub open spec fn settled(
        self,
        here: bool,
        id: Seq<char>,
        flags: Flags,
        known: Map<u32, Flags>,
    ) -> Books {
        match self.ids.uid_of(id) {
            None => self,
            Some(uid) => if here {
                self.reflagged(uid, flags, known)
            } else {
                self.dropped(id)
            },
        }
    }

    /// Does a message that is not new stand as it is? Nothing is then asked of the
    /// store.
    pub open spec fn stands(
        self,
        here: bool,
        id: Seq<char>,
        flags: Flags,
        known: Map<u32, Flags>,
    ) -> bool {
        match self.ids.uid_of(id) {
            None => true,
            Some(uid) => here && held_flags(known, uid) == Some(flags),
        }
    }

    /// Messages that are no longer listed dropped, with their ids.
    pub open spec fn swept(self, uids: Seq<u32>) -> Books
        decreases uids.len(),
    {
        if uids.len() == 0 {
            self
        } else {
            let front = self.swept(uids.drop_last());
            Books {
                ids: front.ids.without_uid(uids.last()),
                counts: Counts { removed: more(front.counts.removed, 1), ..front.counts },
                contents: front.contents.without(uids.last()),
            }
        }
    }

    /// The store's cursor set to the highest number given out.
    pub open spec fn committed(self, uid_validity: u32) -> Books {
        Books {
            contents: self.contents.at_cursor(
                Cursor {
                    uid_validity,
                    last_uid: self.ids.highest(),
                    highest_modseq: 0,
                    accepts_keywords: false,
                },
            ),
            ..self
        }
    }
}

/// Books kept without a message lost: no id got a number that did not have it
/// before, and whoever still has a number of its own still has its message.
pub open spec fn safely(before: Books, after: Books) -> bool {
    &&& after.ids.uids.submap_of(before.ids.uids)
    &&& after.ids.next == before.ids.next
    &&& forall|id: Seq<char>| #[trigger]
        after.ids.uids.contains_key(id) && before.ids.alone(id)
            && before.contents.raws.contains_key(before.ids.uids[id])
            ==> after.contents.raws.contains_key(before.ids.uids[id])
}

pub(crate) proof fn lemma_safely(a: Books, b: Books, c: Books)
    requires
        safely(a, b),
        safely(b, c),
    ensures
        safely(a, c),
{
    assert forall|id: Seq<char>| #[trigger]
        c.ids.uids.contains_key(id) && a.ids.alone(id) && a.contents.raws.contains_key(
            a.ids.uids[id],
        ) implies c.contents.raws.contains_key(a.ids.uids[id]) by {
        assert(b.ids.uids.contains_key(id));
        assert forall|other: Seq<char>| #[trigger]
            b.ids.uids.contains_key(other) && other != id implies b.ids.uids[other]
            != b.ids.uids[id] by {
            assert(a.ids.uids.contains_key(other));
        }
        assert(b.ids.alone(id));
    }
}

proof fn lemma_swept_safely(b: Books, uid: u32)
    ensures
        safely(
            b,
            Books { ids: b.ids.without_uid(uid), contents: b.contents.without(uid), ..b },
        ),
{
    let after = Books { ids: b.ids.without_uid(uid), contents: b.contents.without(uid), ..b };
    assert forall|id: Seq<char>| #[trigger]
        after.ids.uids.contains_key(id) && b.ids.alone(id) && b.contents.raws.contains_key(
            b.ids.uids[id],
        ) implies after.contents.raws.contains_key(b.ids.uids[id]) by {
        if b.ids.uids[id] == uid {
            assert forall|other: Seq<char>|
                b.ids.uids.contains_key(other) && b.ids.uids[other]
                    == uid implies #[trigger] text_before(id, other) by {
                assert(other == id);
                text_order(id, id, id);
            }
            lemma_id_of(b.ids, uid, id);
        }
    }
}

/// Known messages that are not present, ascending.
pub open spec fn left_behind(known: Map<u32, Flags>, present: Seq<u32>) -> Seq<u32> {
    listing_of(known.dom().filter(|uid: u32| !present.contains(uid)))
}

/// Those of `uids` that are not present.
pub open spec fn absent(uids: Seq<u32>, present: Seq<u32>) -> Seq<u32>
    decreases uids.len(),
{
    if uids.len() == 0 {
        Seq::empty()
    } else {
        let front = absent(uids.drop_last(), present);
        if present.contains(uids.last()) {
            front
        } else {
            front.push(uids.last())
        }
    }
}

proof fn lemma_absent(uids: Seq<u32>, present: Seq<u32>)
    requires
        strictly_ascending(uids),
    ensures
        strictly_ascending(absent(uids, present)),
        forall|u: u32|
            #[trigger] absent(uids, present).contains(u) <==> uids.contains(u)
                && !present.contains(u),
    decreases uids.len(),
{
    let r = absent(uids, present);
    if uids.len() > 0 {
        let t = uids.drop_last();
        let front = absent(t, present);
        assert forall|i: int, j: int| 0 <= i < j < t.len() implies #[trigger] t[i]
            < #[trigger] t[j] by {
            assert(uids[i] < uids[j]);
        }
        lemma_absent(t, present);
        assert forall|u: u32| #[trigger] r.contains(u) <==> uids.contains(u) && !present.contains(
            u,
        ) by {
            if front.contains(u) {
                assert(t.contains(u));
                let k = choose|k: int| 0 <= k < t.len() && t[k] == u;
                assert(uids[k] == u);
                let m = choose|m: int| 0 <= m < front.len() && front[m] == u;
                assert(r[m] == u);
            }
            if r.contains(u) && !front.contains(u) {
                let m = choose|m: int| 0 <= m < r.len() && r[m] == u;
                if m < front.len() {
                    assert(front[m] == u);
                }
                assert(uids[uids.len() - 1] == u);
            }
            if uids.contains(u) && !present.contains(u) && !front.contains(u) {
                let k = choose|k: int| 0 <= k < uids.len() && uids[k] == u;
                if k < t.len() {
                    assert(t[k] == u);
                    assert(t.contains(u));
                }
                assert(r[r.len() - 1] == u);
            }
        }
        assert forall|i: int, j: int| 0 <= i < j < r.len() implies #[trigger] r[i]
            < #[trigger] r[j] by {
            if j == front.len() {
                assert(r[i] == front[i]);
                assert(front.contains(front[i]));
                assert(t.contains(front[i]));
                let k = choose|k: int| 0 <= k < t.len() && t[k] == front[i];
                assert(uids[k] < uids[uids.len() - 1]);
            } else {
                assert(front[i] < front[j]);
            }
        }
    }
}

fn holds(v: &Vec<u32>, x: u32) -> (r: bool)
    ensures
        r == v@.contains(x),
{
    let mut i: usize = 0;
    while i < v.len()
        invariant
            i <= v@.len(),
            forall|j: int| 0 <= j < i ==> #[trigger] v@[j] != x,
        decreases v@.len() - i,
    {
        if v[i] == x {
            assert(v@[i as int] == x);
            return true;
        }
        i = i + 1;
    }
    false
}

/// Known messages that are not present, ascending.
#[must_use]
pub fn left_behind_of(known: &BTreeMap<u32, Flags>, present: &Vec<u32>) -> (r: Vec<u32>)
    ensures
        r@ == left_behind(known@, present@),
{
    let uids: Vec<u32> = held_uids(known);
    let mut out: Vec<u32> = Vec::new();
    let mut i: usize = 0;
    assert(uids@.take(0) =~= Seq::<u32>::empty());
    while i < uids.len()
        invariant
            i <= uids@.len(),
            out@ == absent(uids@.take(i as int), present@),
        decreases uids@.len() - i,
    {
        proof {
            assert(uids@.take(i + 1).drop_last() =~= uids@.take(i as int));
            assert(uids@.take(i + 1).last() == uids@[i as int]);
        }
        if !holds(present, uids[i]) {
            out.push(uids[i]);
        }
        i = i + 1;
    }
    proof {
        assert(uids@.take(i as int) =~= uids@);
        lemma_absent(uids@, present@);
        let set = known@.dom().filter(|uid: u32| !present@.contains(uid));
        assert forall|u: u32| out@.to_set().contains(u) <==> set.contains(u) by {
            assert(out@.contains(u) <==> uids@.contains(u) && !present@.contains(u));
            assert(uids@.contains(u) <==> uids@.to_set().contains(u));
        }
        assert(out@.to_set() =~= set);
        lemma_listing_of(out@);
    }
    out
}

/// The flags known for a message.
pub(crate) fn flags_known(known: &BTreeMap<u32, Flags>, uid: u32) -> (r: Option<Flags>)
    ensures
        r == held_flags(known@, uid),
{
    broadcast use vstd::std_specs::btree::group_btree_axioms;

    match known.get(&uid) {
        Some(f) => Some(*f),
        None => None,
    }
}

/// The numbers of ids and the counts of a pass.
#[derive(Debug)]
pub struct Ledger {
    pub ids: IdMap,
    pub counts: Counts,
}

impl Ledger {
    pub open spec fn books(self, contents: Contents) -> Books {
        Books { ids: self.ids@, counts: self.counts, contents }
    }

    pub open spec fn wf(self) -> bool {
        self.ids.wf()
    }

    /// Stores a message under a number.
    pub fn deliver<S: MailStore>(&mut self, store: &mut S, message: &RemoteMessage) -> (r:
        Result<()>)
        ensures
            r is Ok ==> final(self).books(final(store).contents()) == old(self).books(
                old(store).contents(),
            ).delivered(message.uid, message.flags, message.raw@, message.internal_date_ms),
            final(self).ids == old(self).ids,
            r is Err ==> *final(self) == *old(self),
            r is Err ==> safely(
                old(self).books(old(store).contents()),
                final(self).books(final(store).contents()),
            ),
            old(store).dependable() ==> r is Ok && final(store).dependable(),
    {
        match store.upsert(message) {
            Ok(()) => {},
            Err(why) => {
                proof {
                    nothing_held_is_lost(store.contents(), old(store).contents(), message.uid);
                }
                return Err(why);
            },
        }
        self.counts.fetched = count_more(self.counts.fetched, 1);
        Ok(())
    }

    /// Stores a message that is new here. Its id gets its number only once the
    /// message is stored: one that could not be stored is still new.
    pub fn deliver_new<S: MailStore>(
        &mut self,
        store: &mut S,
        id: &str,
        flags: Flags,
        raw: Vec<u8>,
        arrived_ms: i64,
    ) -> (r: Result<()>)
        requires
            old(self).wf(),
        ensures
            final(self).wf(),
            r is Ok ==> final(self).books(final(store).contents()) == (Books {
                ids: old(self).ids@.with(id@),
                ..old(self).books(old(store).contents())
            }).delivered(old(self).ids@.number_for(id@), flags, raw@, arrived_ms),
            r is Err ==> *final(self) == *old(self),
            r is Err ==> safely(
                old(self).books(old(store).contents()),
                final(self).books(final(store).contents()),
            ),
            old(store).dependable() ==> r is Ok && final(store).dependable(),
    {
        let uid: u32 = match self.ids.uid_of(id) {
            Some(uid) => uid,
            None => self.ids.next_uid(),
        };
        let message: RemoteMessage = RemoteMessage {
            uid,
            flags,
            raw,
            internal_date_ms: arrived_ms,
        };
        match self.deliver(store, &message) {
            Ok(()) => {},
            Err(why) => {
                return Err(why);
            },
        }
        let _ = self.ids.uid_for(id);
        Ok(())
    }

    /// Takes over the flags of a message, where they are not the ones known.
    pub fn reflag<S: MailStore>(
        &mut self,
        store: &mut S,
        uid: u32,
        flags: Flags,
        known: &BTreeMap<u32, Flags>,
    ) -> (r: Result<()>)
        ensures
            r is Ok ==> final(self).books(final(store).contents()) == old(self).books(
                old(store).contents(),
            ).reflagged(uid, flags, known@),
            final(self).ids == old(self).ids,
            held_flags(known@, uid) == Some(flags) ==> r is Ok,
            r is Err ==> *final(self) == *old(self),
            safely(
                old(self).books(old(store).contents()),
                final(self).books(final(store).contents()),
            ),
            old(store).dependable() ==> r is Ok && final(store).dependable(),
    {
        if let Some(held) = flags_known(known, uid) {
            if held == flags {
                return Ok(());
            }
        }
        match store.set_flags(uid, flags) {
            Ok(()) => {},
            Err(why) => {
                proof {
                    nothing_held_is_lost(store.contents(), old(store).contents(), uid);
                }
                return Err(why);
            },
        }
        self.counts.reflagged = count_more(self.counts.reflagged, 1);
        Ok(())
    }

    /// Drops an id and its message, if it has a number. The id goes only once the
    /// message is gone.
    pub fn drop_id<S: MailStore>(&mut self, store: &mut S, id: &str) -> (r: Result<()>)
        requires
            old(self).wf(),
        ensures
            final(self).wf(),
            r is Ok ==> final(self).books(final(store).contents()) == old(self).books(
                old(store).contents(),
            ).dropped(id@),
            old(self).ids@.uid_of(id@) is None ==> r is Ok,
            r is Err ==> *final(self) == *old(self),
            safely(
                old(self).books(old(store).contents()),
                final(self).books(final(store).contents()),
            ),
            old(store).dependable() ==> r is Ok && final(store).dependable(),
    {
        match self.ids.uid_of(id) {
            Some(uid) => {
                match store.remove(uid) {
                    Ok(()) => {},
                    Err(why) => {
                        proof {
                            nothing_held_is_lost(store.contents(), old(store).contents(), uid);
                        }
                        return Err(why);
                    },
                }
                self.ids.forget(id);
                self.counts.removed = count_more(self.counts.removed, 1);
            },
            None => {},
        }
        Ok(())
    }

    /// Drops each of these ids.
    pub fn drop_ids<S: MailStore>(&mut self, store: &mut S, ids: &[String]) -> (r: Result<()>)
        requires
            old(self).wf(),
        ensures
            final(self).wf(),
            r is Ok ==> final(self).books(final(store).contents()) == old(self).books(
                old(store).contents(),
            ).all_dropped(texts(ids@)),
            all_unknown(old(self).ids@, texts(ids@)) ==> r is Ok,
            r is Err ==> exists|n: int|
                0 <= n < ids@.len() && final(self).ids@ == (#[trigger] old(self).books(
                    old(store).contents(),
                ).all_dropped(texts(ids@).take(n))).ids,
            safely(
                old(self).books(old(store).contents()),
                final(self).books(final(store).contents()),
            ),
            old(store).dependable() ==> r is Ok && final(store).dependable(),
    {
        let ghost all = texts(ids@);
        let ghost start = self.books(store.contents());
        let ghost sure = store.dependable();
        let mut i: usize = 0;
        assert(all.take(0) =~= Seq::<Seq<char>>::empty());
        while i < ids.len()
            invariant
                i <= ids@.len(),
                all == texts(ids@),
                self.wf(),
                self.books(store.contents()) == start.all_dropped(all.take(i as int)),
                safely(start, self.books(store.contents())),
                start == old(self).books(old(store).contents()),
                all_unknown(start.ids, all) ==> self.ids@ == start.ids,
                sure == old(store).dependable(),
                sure ==> store.dependable(),
            decreases ids@.len() - i,
        {
            proof {
                assert(all.take(i + 1).drop_last() =~= all.take(i as int));
                assert(all.take(i + 1).last() == ids@[i as int]@);
                assert(all[i as int] == ids@[i as int]@);
            }
            let ghost here = self.books(store.contents());
            let done: Result<()> = self.drop_id(store, &ids[i]);
            proof {
                lemma_safely(start, here, self.books(store.contents()));
            }
            match done {
                Ok(()) => {},
                Err(why) => {
                    return Err(why);
                },
            }
            i = i + 1;
        }
        assert(all.take(i as int) =~= all);
        Ok(())
    }

    /// Takes over the flags of a held message that is still here, and drops one
    /// that is not.
    pub fn settle<S: MailStore>(
        &mut self,
        store: &mut S,
        here: bool,
        id: &str,
        flags: Flags,
        known: &BTreeMap<u32, Flags>,
    ) -> (r: Result<()>)
        requires
            old(self).wf(),
        ensures
            final(self).wf(),
            r is Ok ==> final(self).books(final(store).contents()) == old(self).books(
                old(store).contents(),
            ).settled(here, id@, flags, known@),
            old(self).books(old(store).contents()).stands(here, id@, flags, known@) ==> r is Ok,
            r is Err ==> *final(self) == *old(self),
            safely(
                old(self).books(old(store).contents()),
                final(self).books(final(store).contents()),
            ),
            old(store).dependable() ==> r is Ok && final(store).dependable(),
    {
        match self.ids.uid_of(id) {
            None => Ok(()),
            Some(uid) => if here {
                self.reflag(store, uid, flags, known)
            } else {
                self.drop_id(store, id)
            },
        }
    }

    /// Drops messages that are no longer listed, with their ids.
    pub fn sweep<S: MailStore>(&mut self, store: &mut S, uids: &[u32]) -> (r: Result<()>)
        requires
            old(self).wf(),
        ensures
            final(self).wf(),
            r is Ok ==> final(self).books(final(store).contents()) == old(self).books(
                old(store).contents(),
            ).swept(uids@),
            r is Err ==> exists|n: int|
                0 <= n < uids@.len() && final(self).ids@ == (#[trigger] old(self).books(
                    old(store).contents(),
                ).swept(uids@.take(n))).ids,
            safely(
                old(self).books(old(store).contents()),
                final(self).books(final(store).contents()),
            ),
            old(store).dependable() ==> r is Ok && final(store).dependable(),
    {
        let ghost start = self.books(store.contents());
        let ghost sure = store.dependable();
        let mut i: usize = 0;
        assert(uids@.take(0) =~= Seq::<u32>::empty());
        while i < uids.len()
            invariant
                i <= uids@.len(),
                self.wf(),
                self.books(store.contents()) == start.swept(uids@.take(i as int)),
                safely(start, self.books(store.contents())),
                start == old(self).books(old(store).contents()),
                sure == old(store).dependable(),
                sure ==> store.dependable(),
            decreases uids@.len() - i,
        {
            proof {
                assert(uids@.take(i + 1).drop_last() =~= uids@.take(i as int));
                assert(uids@.take(i + 1).last() == uids@[i as int]);
            }
            let id: Option<String> = match self.ids.id_of(uids[i]) {
                Some(id) => Some(id.to_owned()),
                None => None,
            };
            let ghost here = self.books(store.contents());
            let done: Result<()> = store.remove(uids[i]);
            if let Err(why) = done {
                proof {
                    nothing_held_is_lost(store.contents(), here.contents, uids@[i as int]);
                    lemma_safely(start, here, self.books(store.contents()));
                }
                return Err(why);
            }
            if let Some(id) = id {
                self.ids.forget(&id);
            }
            proof {
                lemma_swept_safely(here, uids@[i as int]);
                lemma_safely(start, here, self.books(store.contents()));
            }
            self.counts.removed = count_more(self.counts.removed, 1);
            i = i + 1;
        }
        assert(uids@.take(i as int) =~= uids@);
        Ok(())
    }

    /// Commits the store's cursor.
    pub fn commit<S: MailStore>(&self, store: &mut S, uid_validity: u32) -> (r: Result<()>)
        ensures
            r is Ok ==> self.books(final(store).contents()) == self.books(
                old(store).contents(),
            ).committed(uid_validity),
            safely(self.books(old(store).contents()), self.books(final(store).contents())),
            old(store).dependable() ==> r is Ok && final(store).dependable(),
    {
        store.commit_cursor(
            Cursor {
                uid_validity,
                last_uid: self.ids.highest(),
                highest_modseq: 0,
                accepts_keywords: false,
            },
        )
    }
}

/// Has none of these ids a number?
pub open spec fn all_unknown(ids: Ids, list: Seq<Seq<char>>) -> bool {
    forall|i: int| 0 <= i < list.len() ==> ids.uid_of(#[trigger] list[i]) is None
}

/// Is a text among these?
pub open spec fn among(v: Seq<Seq<char>>, t: Seq<char>) -> bool {
    v.contains(t)
}

pub(crate) fn is_among(v: &Vec<String>, t: &str) -> (r: bool)
    ensures
        r == among(texts(v@), t@),
{
    let mut i: usize = 0;
    while i < v.len()
        invariant
            i <= v@.len(),
            forall|j: int| 0 <= j < i ==> (#[trigger] v@[j])@ != t@,
        decreases v@.len() - i,
    {
        if same(&v[i], t) {
            assert(texts(v@)[i as int] == t@);
            return true;
        }
        i = i + 1;
    }
    proof {
        if texts(v@).contains(t@) {
            let j = choose|j: int| 0 <= j < texts(v@).len() && texts(v@)[j] == t@;
            assert(v@[j]@ == t@);
        }
    }
    false
}

/// Keeping the books of single messages leaves the store's cursor alone: only
/// the commit at the end of a pass sets it.
pub proof fn only_the_commit_moves_the_cursor(
    b: Books,
    uid: u32,
    flags: Flags,
    raw: Seq<u8>,
    arrived_ms: i64,
    known: Map<u32, Flags>,
    here: bool,
    id: Seq<char>,
    ids: Seq<Seq<char>>,
    uids: Seq<u32>,
)
    ensures
        b.delivered(uid, flags, raw, arrived_ms).contents.cursor == b.contents.cursor,
        b.reflagged(uid, flags, known).contents.cursor == b.contents.cursor,
        b.settled(here, id, flags, known).contents.cursor == b.contents.cursor,
        b.all_dropped(ids).contents.cursor == b.contents.cursor,
        b.swept(uids).contents.cursor == b.contents.cursor,
    decreases ids.len() + uids.len(),
{
    if ids.len() > 0 {
        only_the_commit_moves_the_cursor(
            b,
            uid,
            flags,
            raw,
            arrived_ms,
            known,
            here,
            id,
            ids.drop_last(),
            uids,
        );
    } else if uids.len() > 0 {
        only_the_commit_moves_the_cursor(
            b,
            uid,
            flags,
            raw,
            arrived_ms,
            known,
            here,
            id,
            ids,
            uids.drop_last(),
        );
    }
}

/// A message that is held and still here has, once settled, exactly the flags the server
/// gave for it, in every field, whatever it had before. Its bytes, its id and every other
/// message are left alone.
pub proof fn a_message_still_here_has_the_servers_flags(
    b: Books,
    id: Seq<char>,
    flags: Flags,
    known: Map<u32, Flags>,
)
    requires
        b.ids.uids.contains_key(id),
        b.contents.entries.contains_key(b.ids.uids[id]),
        known.contains_key(b.ids.uids[id]) ==> known[b.ids.uids[id]]
            == b.contents.entries[b.ids.uids[id]],
    ensures
        ({
            let uid = b.ids.uids[id];
            let settled = b.settled(true, id, flags, known);
            let flagged = b.reflagged(uid, flags, known);
            &&& settled.contents.entries.contains_key(uid)
            &&& settled.contents.entries[uid].seen == flags.seen
            &&& settled.contents.entries[uid].answered == flags.answered
            &&& settled.contents.entries[uid].flagged == flags.flagged
            &&& settled.contents.entries[uid].draft == flags.draft
            &&& settled.contents.entries[uid].deleted == flags.deleted
            &&& settled.contents.entries[uid].passed == flags.passed
            &&& flagged.contents.entries.contains_key(uid)
            &&& flagged.contents.entries[uid] == flags
            &&& settled.ids == b.ids && flagged.ids == b.ids
            &&& settled.contents.raws == b.contents.raws
            &&& flagged.contents.raws == b.contents.raws
            &&& forall|other: u32|
                other != uid ==> settled.contents.entries.contains_key(other)
                    == b.contents.entries.contains_key(other) && (
                #[trigger] settled.contents.entries[other]) == b.contents.entries[other]
        }),
{
}

/// A change of flags is counted once, and taking over the flags that a message has already
/// counts for nothing.
pub proof fn a_change_of_flags_is_counted(
    b: Books,
    id: Seq<char>,
    flags: Flags,
    known: Map<u32, Flags>,
)
    requires
        b.ids.uids.contains_key(id),
        known.contains_key(b.ids.uids[id]),
        b.counts.reflagged < usize::MAX,
    ensures
        b.settled(true, id, flags, known).counts.reflagged == if known[b.ids.uids[id]] == flags {
            b.counts.reflagged as int
        } else {
            b.counts.reflagged + 1
        },
        b.settled(true, id, flags, known).counts.fetched == b.counts.fetched,
        b.settled(true, id, flags, known).counts.removed == b.counts.removed,
{
}

/// A message that is held and no longer here is dropped, once settled, with its bytes and
/// its id; an id without a number changes nothing.
pub proof fn a_message_that_left_is_dropped(
    b: Books,
    id: Seq<char>,
    flags: Flags,
    known: Map<u32, Flags>,
)
    ensures
        b.ids.uids.contains_key(id) ==> ({
            let uid = b.ids.uids[id];
            let after = b.settled(false, id, flags, known);
            &&& after == b.dropped(id)
            &&& !after.contents.entries.contains_key(uid)
            &&& !after.contents.raws.contains_key(uid)
            &&& !after.ids.uids.contains_key(id)
            &&& b.counts.removed < usize::MAX ==> after.counts.removed == b.counts.removed + 1
            &&& forall|other: u32|
                other != uid ==> after.contents.entries.contains_key(other)
                    == b.contents.entries.contains_key(other) && (
                #[trigger] after.contents.entries[other]) == b.contents.entries[other]
            &&& forall|other: Seq<char>|
                other != id ==> after.ids.uids.contains_key(other) == b.ids.uids.contains_key(
                    other,
                ) && (#[trigger] after.ids.uids[other]) == b.ids.uids[other]
        }),
        !b.ids.uids.contains_key(id) ==> b.settled(false, id, flags, known) == b && b.settled(
            true,
            id,
            flags,
            known,
        ) == b && b.dropped(id) == b,
{
}

/// A message that is stored is held under its number with the flags, the bytes and the date
/// it came with, and counted.
pub proof fn a_delivery_is_held(b: Books, uid: u32, flags: Flags, raw: Seq<u8>, arrived_ms: i64)
    ensures
        ({
            let after = b.delivered(uid, flags, raw, arrived_ms);
            &&& after.contents.entries.contains_key(uid) && after.contents.entries[uid] == flags
            &&& after.contents.raws.contains_key(uid) && after.contents.raws[uid] == raw
            &&& after.contents.dates.contains_key(uid) && after.contents.dates[uid] == arrived_ms
            &&& after.ids == b.ids
            &&& b.counts.fetched < usize::MAX ==> after.counts.fetched == b.counts.fetched + 1
            &&& forall|other: u32|
                other != uid ==> after.contents.entries.contains_key(other)
                    == b.contents.entries.contains_key(other) && (
                #[trigger] after.contents.entries[other]) == b.contents.entries[other]
        }),
{
}

/// Every one of the ids that are dropped loses its number, and its message is gone; a
/// number that none of them has keeps its message.
pub proof fn every_dropped_id_is_gone(b: Books, ids: Seq<Seq<char>>, id: Seq<char>)
    ensures
        ({
            let after = b.all_dropped(ids);
            &&& after.ids.uids.contains_key(id) <==> b.ids.uids.contains_key(id) && !ids.contains(id)
            &&& after.ids.uids.contains_key(id) ==> after.ids.uids[id] == b.ids.uids[id]
            &&& ids.contains(id) && b.ids.uids.contains_key(id)
                ==> !after.contents.entries.contains_key(b.ids.uids[id])
                && !after.contents.raws.contains_key(b.ids.uids[id])
            &&& forall|uid: u32|
                (forall|k: int|
                    0 <= k < ids.len() && b.ids.uids.contains_key(#[trigger] ids[k])
                        ==> b.ids.uids[ids[k]] != uid) ==> (
                #[trigger] after.contents.entries.contains_key(uid))
                    == b.contents.entries.contains_key(uid) && after.contents.entries[uid]
                    == b.contents.entries[uid]
            &&& forall|uid: u32|
                !b.contents.entries.contains_key(uid) ==> !(
                #[trigger] after.contents.entries.contains_key(uid))
            &&& forall|uid: u32|
                !b.contents.raws.contains_key(uid) ==> !(
                #[trigger] after.contents.raws.contains_key(uid))
        }),
    decreases ids.len(),
{
    if ids.len() > 0 {
        let t = ids.drop_last();
        let last = ids.last();
        every_dropped_id_is_gone(b, t, id);
        every_dropped_id_is_gone(b, t, last);
        assert(ids.contains(id) == (t.contains(id) || last == id)) by {
            if t.contains(id) {
                let k = choose|k: int| 0 <= k < t.len() && t[k] == id;
                assert(ids[k] == id);
            }
            if ids.contains(id) && last != id {
                let k = choose|k: int| 0 <= k < ids.len() && ids[k] == id;
                assert(t[k] == id);
            }
            if last == id {
                assert(ids[ids.len() - 1] == id);
            }
        }
        let front = b.all_dropped(t);
        let after = b.all_dropped(ids);
        assert forall|uid: u32|
            (forall|k: int|
                0 <= k < ids.len() && b.ids.uids.contains_key(#[trigger] ids[k])
                    ==> b.ids.uids[ids[k]] != uid) implies (
        #[trigger] after.contents.entries.contains_key(uid)) == b.contents.entries.contains_key(uid)
            && after.contents.entries[uid] == b.contents.entries[uid] by {
            assert forall|k: int|
                0 <= k < t.len() && b.ids.uids.contains_key(#[trigger] t[k]) implies b.ids.uids[t[k]]
                != uid by {
                assert(t[k] == ids[k]);
            }
            assert(front.contents.entries.contains_key(uid) == b.contents.entries.contains_key(uid));
            assert(ids[ids.len() - 1] == last);
        }
        if t.contains(id) && b.ids.uids.contains_key(id) {
            assert(!front.contents.entries.contains_key(b.ids.uids[id]));
        }
        if last == id && b.ids.uids.contains_key(id) && !t.contains(id) {
            assert(front.ids.uids.contains_key(id));
        }
    }
}

/// What is no longer listed: exactly the messages that are known and not present.
pub proof fn who_is_left_behind(known: Map<u32, Flags>, present: Seq<u32>, uid: u32)
    ensures
        left_behind(known, present).contains(uid) <==> known.contains_key(uid) && !present.contains(
            uid,
        ),
{
    let set = known.dom().filter(|uid: u32| !present.contains(uid));
    a_set_of_numbers_is_listed(set);
    assert(listing_of(set).contains(uid) <==> set.contains(uid));
}

/// Every message that is swept is gone, and no other is.
pub proof fn every_swept_message_is_gone(b: Books, uids: Seq<u32>, uid: u32)
    ensures
        ({
            let after = b.swept(uids);
            &&& after.contents.entries.contains_key(uid) <==> b.contents.entries.contains_key(uid)
                && !uids.contains(uid)
            &&& after.contents.entries.contains_key(uid) ==> after.contents.entries[uid]
                == b.contents.entries[uid]
            &&& after.contents.raws.contains_key(uid) <==> b.contents.raws.contains_key(uid)
                && !uids.contains(uid)
            &&& after.ids.uids.submap_of(b.ids.uids)
        }),
    decreases uids.len(),
{
    if uids.len() > 0 {
        let t = uids.drop_last();
        every_swept_message_is_gone(b, t, uid);
        assert(uids.contains(uid) == (t.contains(uid) || uids.last() == uid)) by {
            if t.contains(uid) {
                let k = choose|k: int| 0 <= k < t.len() && t[k] == uid;
                assert(uids[k] == uid);
            }
            if uids.contains(uid) && uids.last() != uid {
                let k = choose|k: int| 0 <= k < uids.len() && uids[k] == uid;
                assert(t[k] == uid);
            }
            if uids.last() == uid {
                assert(uids[uids.len() - 1] == uid);
            }
        }
    }
}

/// Those of some ascending numbers that are not present: exactly those, ascending.
pub proof fn who_is_absent(uids: Seq<u32>, present: Seq<u32>, uid: u32)
    requires
        forall|i: int, j: int| 0 <= i < j < uids.len() ==> #[trigger] uids[i] < #[trigger] uids[j],
    ensures
        absent(uids, present).contains(uid) <==> uids.contains(uid) && !present.contains(uid),
        forall|i: int, j: int|
            0 <= i < j < absent(uids, present).len() ==> #[trigger] absent(uids, present)[i]
                < #[trigger] absent(uids, present)[j],
{
    lemma_absent(uids, present);
}

/// The cursor put down is the highest number given out, and nothing else changes.
pub proof fn what_the_cursor_is_set_to(b: Books, uid_validity: u32)
    ensures
        b.committed(uid_validity).contents.cursor.uid_validity == uid_validity,
        b.ids.next > 0 ==> b.committed(uid_validity).contents.cursor.last_uid == b.ids.next - 1,
        b.committed(uid_validity).contents.raws == b.contents.raws,
        b.committed(uid_validity).contents.entries == b.contents.entries,
        b.committed(uid_validity).ids == b.ids,
{
}

/// A swept message is forgotten with its number: its id is new again.
pub proof fn a_swept_message_is_forgotten(b: Books, uids: Seq<u32>, id: Seq<char>)
    requires
        uids.len() > 0,
        b.swept(uids.drop_last()).ids.id_of(uids.last()) == Some(id),
    ensures
        !b.swept(uids).ids.uids.contains_key(id),
        b.swept(uids).counts.removed >= b.swept(uids.drop_last()).counts.removed,
{
}

} // verus!
