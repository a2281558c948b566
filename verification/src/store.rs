//! What a backing store must provide, and a store that lives in memory.

use std::collections::BTreeMap;

use vstd::prelude::*;

use crate::error::Result;
use crate::model::Flags;

verus! {

/// Where a mailbox has been synced up to.
///
/// Server-opaque: none of it can be worked out from the messages themselves.
#[derive(Debug, Clone, Copy, PartialEq, Eq, Structural)]
pub struct Cursor {
    pub uid_validity: u32,
    pub last_uid: u32,
    pub highest_modseq: u64,
    pub accepts_keywords: bool,
}

/// A cursor that has seen nothing under this numbering.
pub open spec fn fresh_cursor(uid_validity: u32) -> Cursor {
    Cursor { uid_validity, last_uid: 0, highest_modseq: 0, accepts_keywords: false }
}

impl Default for Cursor {
    fn default() -> (r: Self)
        ensures
            r == fresh_cursor(0),
    {
        Cursor { uid_validity: 0, last_uid: 0, highest_modseq: 0, accepts_keywords: false }
    }
}

/// What a store holds, without the bytes.
#[derive(Debug)]
pub struct MailboxState {
    pub cursor: Cursor,
    pub entries: BTreeMap<u32, Flags>,
}

/// A message as the server handed it over.
#[derive(Debug)]
pub struct RemoteMessage {
    pub uid: u32,
    pub flags: Flags,
    /// The original octets, stored verbatim.
    pub raw: Vec<u8>,
    pub internal_date_ms: i64,
}

/// What a store holds, as contracts speak of it.
#[verifier::ext_equal]
pub struct Contents {
    pub cursor: Cursor,
    pub entries: Map<u32, Flags>,
    pub raws: Map<u32, Seq<u8>>,
    /// When each message arrived.
    pub dates: Map<u32, i64>,
}

impl Contents {
    /// A message delivered, or delivered again.
    pub open spec fn with_message(
        self,
        uid: u32,
        flags: Flags,
        raw: Seq<u8>,
        arrived_ms: i64,
    ) -> Contents {
        Contents {
            entries: self.entries.insert(uid, flags),
            raws: self.raws.insert(uid, raw),
            dates: self.dates.insert(uid, arrived_ms),
            ..self
        }
    }

    /// A message re-flagged; one that is not held is left alone.
    pub open spec fn with_flags(self, uid: u32, flags: Flags) -> Contents {
        if self.entries.contains_key(uid) {
            Contents { entries: self.entries.insert(uid, flags), ..self }
        } else {
            self
        }
    }

    pub open spec fn without(self, uid: u32) -> Contents {
        Contents {
            entries: self.entries.remove(uid),
            raws: self.raws.remove(uid),
            dates: self.dates.remove(uid),
            ..self
        }
    }

    /// A change to one message failed: the cursor and every other message are as
    /// they were, and a message that was held has not been lost.
    pub open spec fn unharmed(self, before: Contents, uid: u32) -> bool {
        &&& self.without(uid) == before.without(uid)
        &&& before.raws.contains_key(uid) ==> self.raws.contains_key(uid)
    }

    pub open spec fn at_cursor(self, cursor: Cursor) -> Contents {
        Contents { cursor, ..self }
    }

    /// Nothing held, under a new numbering.
    pub open spec fn renumbered(uid_validity: u32) -> Contents {
        Contents {
            cursor: fresh_cursor(uid_validity),
            entries: Map::empty(),
            raws: Map::empty(),
            dates: Map::empty(),
        }
    }
}

/// Where a change to one message failed, nothing that was held is lost.
pub proof fn nothing_held_is_lost(after: Contents, before: Contents, uid: u32)
    requires
        after.unharmed(before, uid),
    ensures
        after.cursor == before.cursor,
        forall|u: u32| #[trigger]
            before.raws.contains_key(u) ==> after.raws.contains_key(u),
{
    assert forall|u: u32| #[trigger] before.raws.contains_key(u) implies after.raws.contains_key(
        u,
    ) by {
        if u != uid {
            assert(before.without(uid).raws.contains_key(u));
            assert(after.without(uid).raws.contains_key(u));
        }
    }
    assert(after.without(uid).cursor == before.without(uid).cursor);
}

/// Where one mailbox's messages are kept.
pub trait MailStore {
    closed spec fn contents(&self) -> Contents {
        Contents::renumbered(0)
    }

    /// Does nothing this store is asked to do ever fail?
    closed spec fn dependable(&self) -> bool {
        false
    }

    /// What is held, without the bytes.
    fn state(&self) -> (r: Result<MailboxState>)
        ensures
            self.dependable() ==> r is Ok,
            r matches Ok(s) ==> s.cursor == self.contents().cursor && s.entries@
                == self.contents().entries,
    ;

    /// Stores a message under its UID, replacing what was there.
    fn upsert(&mut self, message: &RemoteMessage) -> (r: Result<()>)
        ensures
            r is Err ==> final(self).contents().unharmed(old(self).contents(), message.uid),
            old(self).dependable() ==> r is Ok && final(self).dependable(),
            r is Ok ==> final(self).contents() == old(self).contents().with_message(
                message.uid,
                message.flags,
                message.raw@,
                message.internal_date_ms,
            ),
    ;

    /// Changes the flags of a held message; one not held is left alone.
    fn set_flags(&mut self, uid: u32, flags: Flags) -> (r: Result<()>)
        ensures
            r is Err ==> final(self).contents().unharmed(old(self).contents(), uid),
            old(self).dependable() ==> r is Ok && final(self).dependable(),
            r is Ok ==> final(self).contents() == old(self).contents().with_flags(uid, flags),
    ;

    /// Drops a message; one not held is not an error.
    fn remove(&mut self, uid: u32) -> (r: Result<()>)
        ensures
            r is Err ==> final(self).contents().unharmed(old(self).contents(), uid),
            old(self).dependable() ==> r is Ok && final(self).dependable(),
            r is Ok ==> final(self).contents() == old(self).contents().without(uid),
    ;

    /// The bytes of a held message.
    fn raw(&self, uid: u32) -> (r: Result<Option<Vec<u8>>>)
        ensures
            self.dependable() ==> r is Ok,
            r matches Ok(Some(bytes)) ==> self.contents().raws.contains_key(uid) && bytes@
                == self.contents().raws[uid],
            r matches Ok(None) ==> !self.contents().raws.contains_key(uid),
    ;

    /// Records how far the mailbox has been synced. A commit that failed may have
    /// taken, and changes nothing else.
    fn commit_cursor(&mut self, cursor: Cursor) -> (r: Result<()>)
        ensures
            r is Err ==> final(self).contents() == old(self).contents() || final(self).contents()
                == old(self).contents().at_cursor(cursor),
            old(self).dependable() ==> r is Ok && final(self).dependable(),
            r is Ok ==> final(self).contents() == old(self).contents().at_cursor(cursor),
    ;

    /// Empties the mailbox: the server renumbered it.
    fn reset(&mut self, uid_validity: u32) -> (r: Result<()>)
        ensures
            old(self).dependable() ==> r is Ok && final(self).dependable(),
            r is Ok ==> final(self).contents() == Contents::renumbered(uid_validity),
    ;
}

/// A store over memory.
#[derive(Debug)]
pub struct MemoryStore {
    cursor: Cursor,
    entries: BTreeMap<u32, Flags>,
    raws: BTreeMap<u32, Vec<u8>>,
    dates: BTreeMap<u32, i64>,
}

impl MemoryStore {
    pub closed spec fn view(&self) -> Contents {
        Contents {
            cursor: self.cursor,
            entries: self.entries@,
            raws: self.raws@.map_values(|v: Vec<u8>| v@),
            dates: self.dates@,
        }
    }

    /// When a held message arrived.
    pub fn arrived_ms(&self, uid: u32) -> (r: Option<i64>)
        ensures
            r == if self@.dates.contains_key(uid) {
                Some(self@.dates[uid])
            } else {
                None
            },
    {
        broadcast use vstd::std_specs::btree::group_btree_axioms;

        match self.dates.get(&uid) {
            Some(ms) => Some(*ms),
            None => None,
        }
    }
}

impl Default for MemoryStore {
    fn default() -> (r: Self)
        ensures
            r@ == Contents::renumbered(0),
    {
        let r = MemoryStore {
            cursor: Cursor::default(),
            entries: BTreeMap::new(),
            raws: BTreeMap::new(),
            dates: BTreeMap::new(),
        };
        assert(r@ =~= Contents::renumbered(0));
        r
    }
}

fn copy_bytes(v: &Vec<u8>) -> (r: Vec<u8>)
    ensures
        r@ == v@,
{
    let r: Vec<u8> = v.clone();
    assert(r@ =~= v@);
    r
}

impl MailStore for MemoryStore {
    open spec fn contents(&self) -> Contents {
        self@
    }

    open spec fn dependable(&self) -> bool {
        true
    }

    fn state(&self) -> (r: Result<MailboxState>)
        ensures
            r is Ok,
    {
        Ok(MailboxState { cursor: self.cursor, entries: self.entries.clone() })
    }

    fn upsert(&mut self, message: &RemoteMessage) -> (r: Result<()>)
        ensures
            r is Ok,
    {
        broadcast use vstd::std_specs::btree::group_btree_axioms;

        self.entries.insert(message.uid, message.flags);
        self.raws.insert(message.uid, copy_bytes(&message.raw));
        self.dates.insert(message.uid, message.internal_date_ms);
        assert(self@ =~= old(self)@.with_message(
            message.uid,
            message.flags,
            message.raw@,
            message.internal_date_ms,
        ));
        Ok(())
    }

    fn set_flags(&mut self, uid: u32, flags: Flags) -> (r: Result<()>)
        ensures
            r is Ok,
    {
        broadcast use vstd::std_specs::btree::group_btree_axioms;

        if self.entries.contains_key(&uid) {
            self.entries.insert(uid, flags);
        }
        assert(self@ =~= old(self)@.with_flags(uid, flags));
        Ok(())
    }

    fn remove(&mut self, uid: u32) -> (r: Result<()>)
        ensures
            r is Ok,
    {
        broadcast use vstd::std_specs::btree::group_btree_axioms;

        self.entries.remove(&uid);
        self.raws.remove(&uid);
        self.dates.remove(&uid);
        assert(self@ =~= old(self)@.without(uid));
        Ok(())
    }

    fn raw(&self, uid: u32) -> (r: Result<Option<Vec<u8>>>)
        ensures
            r is Ok,
    {
        broadcast use vstd::std_specs::btree::group_btree_axioms;

        match self.raws.get(&uid) {
            Some(bytes) => Ok(Some(copy_bytes(bytes))),
            None => Ok(None),
        }
    }

    fn commit_cursor(&mut self, cursor: Cursor) -> (r: Result<()>)
        ensures
            r is Ok,
    {
        self.cursor = cursor;
        assert(self@ =~= old(self)@.at_cursor(cursor));
        Ok(())
    }

    fn reset(&mut self, uid_validity: u32) -> (r: Result<()>)
        ensures
            r is Ok,
    {
        self.entries.clear();
        self.raws.clear();
        self.dates.clear();
        self.cursor = Cursor { uid_validity, last_uid: 0, highest_modseq: 0, accepts_keywords: false };
        assert(self@ =~= Contents::renumbered(uid_validity));
        Ok(())
    }
}

// ---- several at once ----

impl Contents {
    /// These messages delivered, in this order.
    pub open spec fn with_messages(self, messages: Seq<RemoteMessage>) -> Contents
        decreases messages.len(),
    {
        if messages.len() == 0 {
            self
        } else {
            let m = messages.last();
            self.with_messages(messages.drop_last()).with_message(
                m.uid,
                m.flags,
                m.raw@,
                m.internal_date_ms,
            )
        }
    }

    /// These flags set, in this order.
    pub open spec fn with_all_flags(self, updates: Seq<(u32, Flags)>) -> Contents
        decreases updates.len(),
    {
        if updates.len() == 0 {
            self
        } else {
            self.with_all_flags(updates.drop_last()).with_flags(updates.last().0, updates.last().1)
        }
    }

    /// These messages dropped.
    pub open spec fn without_all(self, uids: Seq<u32>) -> Contents
        decreases uids.len(),
    {
        if uids.len() == 0 {
            self
        } else {
            self.without_all(uids.drop_last()).without(uids.last())
        }
    }
}

/// Delivering messages, setting flags and dropping messages leaves the cursor
/// where it is.
pub proof fn only_a_commit_moves_the_cursor(
    c: Contents,
    messages: Seq<RemoteMessage>,
    updates: Seq<(u32, Flags)>,
    uids: Seq<u32>,
)
    ensures
        c.with_messages(messages).cursor == c.cursor,
        c.with_all_flags(updates).cursor == c.cursor,
        c.without_all(uids).cursor == c.cursor,
    decreases messages.len() + updates.len() + uids.len(),
{
    if messages.len() > 0 {
        only_a_commit_moves_the_cursor(c, messages.drop_last(), updates, uids);
    } else if updates.len() > 0 {
        only_a_commit_moves_the_cursor(c, messages, updates.drop_last(), uids);
    } else if uids.len() > 0 {
        only_a_commit_moves_the_cursor(c, messages, updates, uids.drop_last());
    }
}

/// Delivers every message, in order.
pub fn upsert_all<S: MailStore>(store: &mut S, messages: &[RemoteMessage]) -> (r: Result<()>)
    ensures
        r is Ok ==> final(store).contents() == old(store).contents().with_messages(messages@),
        messages@.len() == 0 ==> r is Ok,
        final(store).contents().cursor == old(store).contents().cursor,
        old(store).dependable() ==> r is Ok && final(store).dependable(),
{
    let ghost start = store.contents();
    let ghost sure = store.dependable();
    let mut i: usize = 0;
    assert(messages@.take(0) =~= Seq::<RemoteMessage>::empty());
    while i < messages.len()
        invariant
            i <= messages@.len(),
            store.contents() == start.with_messages(messages@.take(i as int)),
            sure == old(store).dependable(),
            start == old(store).contents(),
            store.contents().cursor == start.cursor,
            sure ==> store.dependable(),
        decreases messages@.len() - i,
    {
        proof {
            assert(messages@.take(i + 1).drop_last() =~= messages@.take(i as int));
            assert(messages@.take(i + 1).last() == messages@[i as int]);
        }
        match store.upsert(&messages[i]) {
            Ok(()) => {},
            Err(why) => {
                return Err(why);
            },
        }
        i = i + 1;
    }
    assert(messages@.take(i as int) =~= messages@);
    Ok(())
}

/// Sets every one of these flags, in order.
pub fn set_all_flags<S: MailStore>(store: &mut S, updates: &[(u32, Flags)]) -> (r: Result<()>)
    ensures
        r is Ok ==> final(store).contents() == old(store).contents().with_all_flags(updates@),
        final(store).contents().cursor == old(store).contents().cursor,
        old(store).dependable() ==> r is Ok && final(store).dependable(),
{
    let ghost start = store.contents();
    let ghost sure = store.dependable();
    let mut i: usize = 0;
    assert(updates@.take(0) =~= Seq::<(u32, Flags)>::empty());
    while i < updates.len()
        invariant
            i <= updates@.len(),
            store.contents() == start.with_all_flags(updates@.take(i as int)),
            sure == old(store).dependable(),
            start == old(store).contents(),
            store.contents().cursor == start.cursor,
            sure ==> store.dependable(),
        decreases updates@.len() - i,
    {
        proof {
            assert(updates@.take(i + 1).drop_last() =~= updates@.take(i as int));
            assert(updates@.take(i + 1).last() == updates@[i as int]);
        }
        match store.set_flags(updates[i].0, updates[i].1) {
            Ok(()) => {},
            Err(why) => {
                return Err(why);
            },
        }
        i = i + 1;
    }
    assert(updates@.take(i as int) =~= updates@);
    Ok(())
}

/// Drops every one of these messages.
pub fn remove_all<S: MailStore>(store: &mut S, uids: &[u32]) -> (r: Result<()>)
    ensures
        r is Ok ==> final(store).contents() == old(store).contents().without_all(uids@),
        uids@.len() == 0 ==> r is Ok,
        final(store).contents().cursor == old(store).contents().cursor,
        old(store).dependable() ==> r is Ok && final(store).dependable(),
{
    let ghost start = store.contents();
    let ghost sure = store.dependable();
    let mut i: usize = 0;
    assert(uids@.take(0) =~= Seq::<u32>::empty());
    while i < uids.len()
        invariant
            i <= uids@.len(),
            store.contents() == start.without_all(uids@.take(i as int)),
            sure == old(store).dependable(),
            start == old(store).contents(),
            store.contents().cursor == start.cursor,
            sure ==> store.dependable(),
        decreases uids@.len() - i,
    {
        proof {
            assert(uids@.take(i + 1).drop_last() =~= uids@.take(i as int));
            assert(uids@.take(i + 1).last() == uids@[i as int]);
        }
        match store.remove(uids[i]) {
            Ok(()) => {},
            Err(why) => {
                return Err(why);
            },
        }
        i = i + 1;
    }
    assert(uids@.take(i as int) =~= uids@);
    Ok(())
}

// ---- what changes come to ----

/// Delivering messages: the last one delivered under a UID is what is held under it, with
/// its flags, its bytes and its date; nothing else is touched.
pub proof fn what_deliveries_leave(c: Contents, messages: Seq<RemoteMessage>, uid: u32)
    ensures
        ({
            let after = c.with_messages(messages);
            &&& after.cursor == c.cursor
            &&& forall|k: int|
                0 <= k < messages.len() && (#[trigger] messages[k]).uid == uid && (forall|j: int|
                    k < j < messages.len() ==> (#[trigger] messages[j]).uid != uid)
                    ==> after.entries.contains_key(uid) && after.entries[uid] == messages[k].flags
                    && after.raws.contains_key(uid) && after.raws[uid] == messages[k].raw@
                    && after.dates.contains_key(uid) && after.dates[uid]
                    == messages[k].internal_date_ms
            &&& (forall|k: int| 0 <= k < messages.len() ==> (#[trigger] messages[k]).uid != uid)
                ==> after.entries.contains_key(uid) == c.entries.contains_key(uid)
                && after.entries[uid] == c.entries[uid] && after.raws.contains_key(uid)
                == c.raws.contains_key(uid) && after.raws[uid] == c.raws[uid]
                && after.dates.contains_key(uid) == c.dates.contains_key(uid) && after.dates[uid]
                == c.dates[uid]
        }),
    decreases messages.len(),
{
    if messages.len() > 0 {
        let t = messages.drop_last();
        what_deliveries_leave(c, t, uid);
        assert(messages.last() == messages[messages.len() - 1]);
        assert forall|k: int|
            0 <= k < messages.len() - 1 && (#[trigger] messages[k]).uid == uid && (forall|j: int|
                k < j < messages.len() ==> (#[trigger] messages[j]).uid != uid) implies (forall|j: int|
            k < j < t.len() ==> (#[trigger] t[j]).uid != uid) && t[k] == messages[k]
            && messages[messages.len() - 1].uid != uid by {
            assert forall|j: int| k < j < t.len() implies (#[trigger] t[j]).uid != uid by {
                assert(t[j] == messages[j]);
            }
        }
        if forall|k: int| 0 <= k < messages.len() ==> (#[trigger] messages[k]).uid != uid {
            assert forall|k: int| 0 <= k < t.len() implies (#[trigger] t[k]).uid != uid by {
                assert(t[k] == messages[k]);
            }
        }
    }
}

/// Setting flags: a held message has the flags set last for it, in every field; one that no
/// update names keeps its own, nothing is gained or lost, and no bytes change.
pub proof fn what_flag_updates_leave(c: Contents, updates: Seq<(u32, Flags)>, uid: u32)
    ensures
        ({
            let after = c.with_all_flags(updates);
            &&& after.cursor == c.cursor
            &&& after.raws == c.raws
            &&& after.dates == c.dates
            &&& after.entries.contains_key(uid) == c.entries.contains_key(uid)
            &&& forall|k: int|
                0 <= k < updates.len() && (#[trigger] updates[k]).0 == uid && (forall|j: int|
                    k < j < updates.len() ==> (#[trigger] updates[j]).0 != uid)
                    && c.entries.contains_key(uid) ==> after.entries[uid] == updates[k].1
            &&& (forall|k: int| 0 <= k < updates.len() ==> (#[trigger] updates[k]).0 != uid)
                ==> after.entries[uid] == c.entries[uid]
        }),
    decreases updates.len(),
{
    if updates.len() > 0 {
        let t = updates.drop_last();
        what_flag_updates_leave(c, t, uid);
        what_flag_updates_leave(c, t, updates.last().0);
        assert(updates.last() == updates[updates.len() - 1]);
        assert forall|k: int|
            0 <= k < updates.len() - 1 && (#[trigger] updates[k]).0 == uid && (forall|j: int|
                k < j < updates.len() ==> (#[trigger] updates[j]).0 != uid) implies (forall|j: int|
            k < j < t.len() ==> (#[trigger] t[j]).0 != uid) && t[k] == updates[k]
            && updates[updates.len() - 1].0 != uid by {
            assert forall|j: int| k < j < t.len() implies (#[trigger] t[j]).0 != uid by {
                assert(t[j] == updates[j]);
            }
        }
        if forall|k: int| 0 <= k < updates.len() ==> (#[trigger] updates[k]).0 != uid {
            assert forall|k: int| 0 <= k < t.len() implies (#[trigger] t[k]).0 != uid by {
                assert(t[k] == updates[k]);
            }
        }
    }
}

/// Dropping messages: what is named is gone, with its bytes and its date, and everything
/// else is as it was.
pub proof fn what_removals_leave(c: Contents, uids: Seq<u32>, uid: u32)
    ensures
        ({
            let after = c.without_all(uids);
            &&& after.cursor == c.cursor
            &&& after.entries.contains_key(uid) == (c.entries.contains_key(uid) && !uids.contains(
                uid,
            ))
            &&& after.raws.contains_key(uid) == (c.raws.contains_key(uid) && !uids.contains(uid))
            &&& after.dates.contains_key(uid) == (c.dates.contains_key(uid) && !uids.contains(uid))
            &&& after.entries.contains_key(uid) ==> after.entries[uid] == c.entries[uid]
            &&& after.raws.contains_key(uid) ==> after.raws[uid] == c.raws[uid]
            &&& after.dates.contains_key(uid) ==> after.dates[uid] == c.dates[uid]
        }),
    decreases uids.len(),
{
    if uids.len() > 0 {
        let t = uids.drop_last();
        what_removals_leave(c, t, uid);
        assert(uids.contains(uid) == (t.contains(uid) || uids.last() == uid)) by {
            if t.contains(uid) {
                let k = choose|k: int| 0 <= k < t.len() && t[k] == uid;
                assert(uids[k] == uid);
            }
            if uids.contains(uid) && uids.last() != uid {
                let k = choose|k: int| 0 <= k < uids.len() && uids[k] == uid;
                assert(t[k] == uid);
            }
            if uids.last() == uid {
                assert(uids[uids.len() - 1] == uid);
            }
        }
    }
}

} // verus!
